use log_lexer::ast::{ClassBracketed, ClassSet, ClassSetItem, GroupKind, PerlKind, RegexAst, RepetitionKind};
use log_lexer::errors::Error;
use log_lexer::nfa::{State, Transition, NFA, DIGIT_TRANSITION, EPSILON_TRANSITION, SPACE_TRANSITION};

fn to_perl_kind(kind: &regex_syntax::ast::ClassPerlKind) -> PerlKind {
    match kind {
        regex_syntax::ast::ClassPerlKind::Digit => PerlKind::Digit,
        regex_syntax::ast::ClassPerlKind::Space => PerlKind::Space,
        regex_syntax::ast::ClassPerlKind::Word => PerlKind::Word,
    }
}

fn to_class_set_item(item: &regex_syntax::ast::ClassSetItem) -> ClassSetItem {
    match item {
        regex_syntax::ast::ClassSetItem::Empty(_) => ClassSetItem::Empty,
        regex_syntax::ast::ClassSetItem::Literal(l) => ClassSetItem::Literal(l.c),
        regex_syntax::ast::ClassSetItem::Range(r) => ClassSetItem::Range(r.start.c, r.end.c),
        regex_syntax::ast::ClassSetItem::Ascii(_) => ClassSetItem::Ascii,
        regex_syntax::ast::ClassSetItem::Unicode(_) => ClassSetItem::Unicode,
        regex_syntax::ast::ClassSetItem::Perl(p) => ClassSetItem::Perl {
            negated: p.negated,
            kind: to_perl_kind(&p.kind),
        },
        regex_syntax::ast::ClassSetItem::Bracketed(b) => {
            ClassSetItem::Bracketed(Box::new(to_bracketed(b)))
        }
        regex_syntax::ast::ClassSetItem::Union(u) => {
            ClassSetItem::Union(u.items.iter().map(to_class_set_item).collect())
        }
    }
}

fn to_bracketed(b: &regex_syntax::ast::ClassBracketed) -> ClassBracketed {
    ClassBracketed {
        negated: b.negated,
        kind: match &b.kind {
            regex_syntax::ast::ClassSet::Item(item) => ClassSet::Item(to_class_set_item(item)),
            regex_syntax::ast::ClassSet::BinaryOp(_) => ClassSet::BinaryOp,
        },
    }
}

fn to_pattern(ast: &regex_syntax::ast::Ast) -> RegexAst {
    match ast {
        regex_syntax::ast::Ast::Empty(_) => RegexAst::Empty,
        regex_syntax::ast::Ast::Flags(_) => RegexAst::Flags,
        regex_syntax::ast::Ast::Literal(l) => RegexAst::Literal(l.c),
        regex_syntax::ast::Ast::Dot(_) => RegexAst::Dot,
        regex_syntax::ast::Ast::Assertion(_) => RegexAst::Assertion,
        regex_syntax::ast::Ast::ClassUnicode(_) => RegexAst::ClassUnicode,
        regex_syntax::ast::Ast::ClassPerl(p) => RegexAst::ClassPerl {
            negated: p.negated,
            kind: to_perl_kind(&p.kind),
        },
        regex_syntax::ast::Ast::ClassBracketed(b) => RegexAst::ClassBracketed(Box::new(to_bracketed(b))),
        regex_syntax::ast::Ast::Repetition(r) => RegexAst::Repetition {
            greedy: r.greedy,
            kind: match &r.op.kind {
                regex_syntax::ast::RepetitionKind::ZeroOrOne => RepetitionKind::ZeroOrOne,
                regex_syntax::ast::RepetitionKind::ZeroOrMore => RepetitionKind::ZeroOrMore,
                regex_syntax::ast::RepetitionKind::OneOrMore => RepetitionKind::OneOrMore,
                regex_syntax::ast::RepetitionKind::Range(range) => match range {
                    regex_syntax::ast::RepetitionRange::Exactly(n) => RepetitionKind::Exactly(*n),
                    regex_syntax::ast::RepetitionRange::AtLeast(n) => RepetitionKind::AtLeast(*n),
                    regex_syntax::ast::RepetitionRange::Bounded(a, b) => {
                        RepetitionKind::Bounded(*a, *b)
                    }
                },
            },
            ast: Box::new(to_pattern(&r.ast)),
        },
        regex_syntax::ast::Ast::Group(g) => RegexAst::Group {
            kind: match &g.kind {
                regex_syntax::ast::GroupKind::CaptureIndex(i) => GroupKind::CaptureIndex(*i),
                regex_syntax::ast::GroupKind::CaptureName { .. } => GroupKind::CaptureName(0),
                regex_syntax::ast::GroupKind::NonCapturing(_) => GroupKind::NonCapturing,
            },
            ast: Box::new(to_pattern(&g.ast)),
        },
        regex_syntax::ast::Ast::Alternation(a) => RegexAst::Alternation(a.asts.iter().map(to_pattern).collect()),
        regex_syntax::ast::Ast::Concat(c) => RegexAst::Concat(c.asts.iter().map(to_pattern).collect()),
    }
}

pub fn parse_pattern(pattern: &str) -> RegexAst {
    let ast = regex_syntax::ast::parse::Parser::new().parse(pattern).unwrap();
    to_pattern(&ast)
}

fn has_transition(nfa: &NFA, from: State, to: State, onehot_trans: u128) -> bool {
    if from.0 >= nfa.states.len() || to.0 >= nfa.states.len() {
        return false;
    }
    for trans in &nfa.transitions[from.0] {
        if to != trans.to {
            continue;
        }
        if trans.symbol_onehot_encoding == onehot_trans {
            return true;
        }
    }
    false
}

fn has_no_transition(nfa: &NFA, from: State, to: State, onehot_trans: u128) -> bool {
    false == has_transition(nfa, from, to, onehot_trans)
}

#[test]
fn test_single_char() {
    let parsed_ast = parse_pattern(r"&");
    let mut nfa = NFA::new();
    nfa.add_ast_to_nfa(&parsed_ast, NFA::start_state(), NFA::accept_state())
        .unwrap();

    assert!(has_transition(
        &nfa,
        NFA::start_state(),
        NFA::accept_state(),
        Transition::convert_char_to_symbol_onehot_encoding('&')
    ));
}

#[test]
fn test_dot() {
    {
        let parsed_ast = parse_pattern(r".");
        let mut nfa = NFA::new();
        nfa.add_ast_to_nfa(&parsed_ast, NFA::start_state(), NFA::accept_state())
            .unwrap();

        assert!(has_transition(
            &nfa,
            NFA::start_state(),
            NFA::accept_state(),
            Transition::convert_char_range_to_symbol_onehot_encoding(Some((0, 127)))
        ));
    }

    {
        // Testing escaped `.`
        let parsed_ast = parse_pattern(r"\.");
        let mut nfa = NFA::new();
        nfa.add_ast_to_nfa(&parsed_ast, NFA::start_state(), NFA::accept_state())
            .unwrap();

        assert!(has_transition(
            &nfa,
            NFA::start_state(),
            NFA::accept_state(),
            Transition::convert_char_to_symbol_onehot_encoding('.')
        ));
    }
}

#[test]
fn test_perl() {
    {
        let parsed_ast = parse_pattern(r"\d");
        let mut nfa = NFA::new();
        nfa.add_ast_to_nfa(&parsed_ast, NFA::start_state(), NFA::accept_state())
            .unwrap();

        let char_vec: Vec<u8> = (b'0'..=b'9').collect();
        assert!(has_transition(
            &nfa,
            NFA::start_state(),
            NFA::accept_state(),
            Transition::convert_char_vec_to_symbol_onehot_encoding(char_vec)
        ));
    }

    {
        let parsed_ast = parse_pattern(r"\s");
        let mut nfa = NFA::new();
        nfa.add_ast_to_nfa(&parsed_ast, NFA::start_state(), NFA::accept_state())
            .unwrap();

        let char_vec = vec![
            b' ',    // Space
            b'\t',   // Horizontal Tab
            b'\n',   // Line Feed
            b'\r',   // Carriage Return
            b'\x0B', // Vertical Tab
            b'\x0C', // Form Feed
        ];
        assert!(has_transition(
            &nfa,
            NFA::start_state(),
            NFA::accept_state(),
            Transition::convert_char_vec_to_symbol_onehot_encoding(char_vec)
        ));
    }

    {
        let parsed_ast = parse_pattern(r"\w");
        let mut nfa = NFA::new();
        nfa.add_ast_to_nfa(&parsed_ast, NFA::start_state(), NFA::accept_state())
            .unwrap();

        let char_vec: Vec<u8> = (b'0'..=b'9')
            .chain(b'A'..=b'Z')
            .chain(b'a'..=b'z')
            .chain(std::iter::once(b'_'))
            .collect();
        assert!(has_transition(
            &nfa,
            NFA::start_state(),
            NFA::accept_state(),
            Transition::convert_char_vec_to_symbol_onehot_encoding(char_vec)
        ));
    }

    {
        let parsed_ast = parse_pattern(r"\D");
        let mut nfa = NFA::new();
        let nfa_result = nfa.add_ast_to_nfa(&parsed_ast, NFA::start_state(), NFA::accept_state());
        assert!(nfa_result.is_err());
    }
}

#[test]
fn test_concat_simple() {
    let parsed_ast = parse_pattern(r"<\d>");
    let mut nfa = NFA::new();
    nfa.add_ast_to_nfa(&parsed_ast, NFA::start_state(), NFA::accept_state())
        .unwrap();

    assert!(has_transition(
        &nfa,
        NFA::start_state(),
        State(2),
        Transition::convert_char_to_symbol_onehot_encoding('<')
    ));
    assert!(has_transition(&nfa, State(2), State(3), DIGIT_TRANSITION));
    assert!(has_transition(
        &nfa,
        State(3),
        NFA::accept_state(),
        Transition::convert_char_to_symbol_onehot_encoding('>')
    ));
}

#[test]
fn test_alternation_simple() {
    let parsed_ast = parse_pattern(r"\d|a|bcd");
    let mut nfa = NFA::new();
    nfa.add_ast_to_nfa(&parsed_ast, NFA::start_state(), NFA::accept_state())
        .unwrap();

    assert!(has_transition(
        &nfa,
        NFA::start_state(),
        State(2),
        EPSILON_TRANSITION
    ));
    assert!(has_transition(&nfa, State(2), State(3), DIGIT_TRANSITION));
    assert!(has_transition(
        &nfa,
        State(3),
        NFA::accept_state(),
        EPSILON_TRANSITION
    ));

    assert!(has_transition(
        &nfa,
        NFA::start_state(),
        State(4),
        EPSILON_TRANSITION
    ));
    assert!(has_transition(
        &nfa,
        State(4),
        State(5),
        Transition::convert_char_to_symbol_onehot_encoding('a')
    ));
    assert!(has_transition(
        &nfa,
        State(5),
        NFA::accept_state(),
        EPSILON_TRANSITION
    ));

    assert!(has_transition(
        &nfa,
        NFA::start_state(),
        State(6),
        EPSILON_TRANSITION
    ));
    assert!(has_transition(
        &nfa,
        State(6),
        State(8),
        Transition::convert_char_to_symbol_onehot_encoding('b')
    ));
    assert!(has_transition(
        &nfa,
        State(8),
        State(9),
        Transition::convert_char_to_symbol_onehot_encoding('c')
    ));
    assert!(has_transition(
        &nfa,
        State(9),
        State(7),
        Transition::convert_char_to_symbol_onehot_encoding('d')
    ));
    assert!(has_transition(
        &nfa,
        State(7),
        NFA::accept_state(),
        EPSILON_TRANSITION
    ));
}

#[test]
fn test_repetition() {
    let a_transition = Transition::convert_char_to_symbol_onehot_encoding('a');
    let range_bound_state = State(2);

    {
        let parsed_ast = parse_pattern(r"a{0,3}");
        let mut nfa = NFA::new();
        nfa.add_ast_to_nfa(&parsed_ast, NFA::start_state(), NFA::accept_state())
            .unwrap();

        assert!(has_transition(
            &nfa,
            NFA::start_state(),
            range_bound_state,
            EPSILON_TRANSITION
        ));
        assert!(has_transition(&nfa, range_bound_state, State(3), a_transition));
        assert!(has_transition(
            &nfa,
            State(3),
            NFA::accept_state(),
            EPSILON_TRANSITION
        ));
        assert!(has_transition(&nfa, State(3), State(4), a_transition));
        assert!(has_transition(
            &nfa,
            State(4),
            NFA::accept_state(),
            EPSILON_TRANSITION
        ));
        assert!(has_transition(&nfa, State(4), State(5), a_transition));
        assert!(has_transition(
            &nfa,
            State(5),
            NFA::accept_state(),
            EPSILON_TRANSITION
        ));
        assert!(has_transition(
            &nfa,
            range_bound_state,
            NFA::accept_state(),
            EPSILON_TRANSITION
        ));

        assert_eq!(nfa.states.len(), 6);
    }

    {
        let parsed_ast = parse_pattern(r"a{0,1}");
        let mut nfa = NFA::new();
        nfa.add_ast_to_nfa(&parsed_ast, NFA::start_state(), NFA::accept_state())
            .unwrap();

        assert!(has_transition(
            &nfa,
            NFA::start_state(),
            range_bound_state,
            EPSILON_TRANSITION
        ));
        assert!(has_transition(&nfa, range_bound_state, State(3), a_transition));
        assert!(has_transition(
            &nfa,
            State(3),
            NFA::accept_state(),
            EPSILON_TRANSITION
        ));
        assert!(has_transition(
            &nfa,
            range_bound_state,
            NFA::accept_state(),
            EPSILON_TRANSITION
        ));

        assert_eq!(nfa.states.len(), 4);
    }

    {
        let parsed_ast = parse_pattern(r"a*");
        let mut nfa = NFA::new();
        nfa.add_ast_to_nfa(&parsed_ast, NFA::start_state(), NFA::accept_state())
            .unwrap();

        assert!(has_transition(
            &nfa,
            NFA::start_state(),
            range_bound_state,
            EPSILON_TRANSITION
        ));
        assert!(has_transition(
            &nfa,
            range_bound_state,
            range_bound_state,
            a_transition
        ));
        assert!(has_transition(
            &nfa,
            range_bound_state,
            NFA::accept_state(),
            EPSILON_TRANSITION
        ));

        assert_eq!(nfa.states.len(), 3);
    }

    {
        let parsed_ast = parse_pattern(r"a+");
        let mut nfa = NFA::new();
        nfa.add_ast_to_nfa(&parsed_ast, NFA::start_state(), NFA::accept_state())
            .unwrap();

        assert!(has_no_transition(
            &nfa,
            NFA::start_state(),
            NFA::accept_state(),
            EPSILON_TRANSITION
        ));
        assert!(has_transition(
            &nfa,
            NFA::start_state(),
            range_bound_state,
            a_transition
        ));
        assert!(has_transition(
            &nfa,
            range_bound_state,
            range_bound_state,
            a_transition
        ));
        assert!(has_transition(
            &nfa,
            range_bound_state,
            NFA::accept_state(),
            EPSILON_TRANSITION
        ));
        assert!(has_transition(
            &nfa,
            range_bound_state,
            NFA::accept_state(),
            EPSILON_TRANSITION
        ));

        assert_eq!(nfa.states.len(), 3);
    }

    {
        let parsed_ast = parse_pattern(r"a{1,}");
        let mut nfa = NFA::new();
        nfa.add_ast_to_nfa(&parsed_ast, NFA::start_state(), NFA::accept_state())
            .unwrap();

        assert!(has_no_transition(
            &nfa,
            NFA::start_state(),
            NFA::accept_state(),
            EPSILON_TRANSITION
        ));
        assert!(has_transition(
            &nfa,
            NFA::start_state(),
            range_bound_state,
            a_transition
        ));
        assert!(has_transition(
            &nfa,
            range_bound_state,
            range_bound_state,
            a_transition
        ));
        assert!(has_transition(
            &nfa,
            range_bound_state,
            NFA::accept_state(),
            EPSILON_TRANSITION
        ));

        assert_eq!(nfa.states.len(), 3);
    }

    {
        let parsed_ast = parse_pattern(r"a{3,}");
        let mut nfa = NFA::new();
        nfa.add_ast_to_nfa(&parsed_ast, NFA::start_state(), NFA::accept_state())
            .unwrap();

        assert!(has_no_transition(
            &nfa,
            NFA::start_state(),
            NFA::accept_state(),
            EPSILON_TRANSITION
        ));
        assert!(has_transition(&nfa, NFA::start_state(), State(3), a_transition));
        assert!(has_transition(&nfa, State(3), State(4), a_transition));
        assert!(has_transition(&nfa, State(4), range_bound_state, a_transition));
        assert!(has_transition(
            &nfa,
            range_bound_state,
            range_bound_state,
            a_transition
        ));
        assert!(has_transition(
            &nfa,
            range_bound_state,
            NFA::accept_state(),
            EPSILON_TRANSITION
        ));

        assert_eq!(nfa.states.len(), 5);
    }

    {
        let parsed_ast = parse_pattern(r"a{3}");
        let mut nfa = NFA::new();
        nfa.add_ast_to_nfa(&parsed_ast, NFA::start_state(), NFA::accept_state())
            .unwrap();

        assert!(has_no_transition(
            &nfa,
            NFA::start_state(),
            NFA::accept_state(),
            EPSILON_TRANSITION
        ));
        assert!(has_transition(&nfa, NFA::start_state(), State(3), a_transition));
        assert!(has_transition(&nfa, State(3), State(4), a_transition));
        assert!(has_transition(&nfa, State(4), range_bound_state, a_transition));
        assert!(has_transition(
            &nfa,
            range_bound_state,
            NFA::accept_state(),
            EPSILON_TRANSITION
        ));

        assert_eq!(nfa.states.len(), 5);
    }

    {
        let parsed_ast = parse_pattern(r"a{3,6}");
        let mut nfa = NFA::new();
        nfa.add_ast_to_nfa(&parsed_ast, NFA::start_state(), NFA::accept_state())
            .unwrap();

        assert!(has_no_transition(
            &nfa,
            NFA::start_state(),
            NFA::accept_state(),
            EPSILON_TRANSITION
        ));
        assert!(has_transition(&nfa, NFA::start_state(), State(3), a_transition));
        assert!(has_transition(&nfa, State(3), State(4), a_transition));
        assert!(has_transition(&nfa, State(4), range_bound_state, a_transition));
        assert!(has_transition(
            &nfa,
            range_bound_state,
            NFA::accept_state(),
            EPSILON_TRANSITION
        ));
        assert!(has_transition(&nfa, range_bound_state, State(5), a_transition));
        assert!(has_transition(
            &nfa,
            State(5),
            NFA::accept_state(),
            EPSILON_TRANSITION
        ));
        assert!(has_transition(&nfa, State(5), State(6), a_transition));
        assert!(has_transition(&nfa, State(6), State(7), a_transition));
        assert!(has_transition(
            &nfa,
            State(7),
            NFA::accept_state(),
            EPSILON_TRANSITION
        ));
        assert!(has_transition(
            &nfa,
            range_bound_state,
            NFA::accept_state(),
            EPSILON_TRANSITION
        ));

        assert_eq!(nfa.states.len(), 8);
    }
}

#[test]
fn test_group() {
    let parsed_ast = parse_pattern(r"(\s|\d)+");
    let mut nfa = NFA::new();
    nfa.add_ast_to_nfa(&parsed_ast, NFA::start_state(), NFA::accept_state())
        .unwrap();
    println!("{:?}", nfa.states.len());

    assert!(has_transition(
        &nfa,
        NFA::start_state(),
        State(3),
        EPSILON_TRANSITION
    ));
    assert!(has_transition(&nfa, State(3), State(4), SPACE_TRANSITION));
    assert!(has_transition(&nfa, State(4), State(2), EPSILON_TRANSITION));
    assert!(has_transition(
        &nfa,
        NFA::start_state(),
        State(5),
        EPSILON_TRANSITION
    ));
    assert!(has_transition(&nfa, State(5), State(6), DIGIT_TRANSITION));
    assert!(has_transition(&nfa, State(6), State(2), EPSILON_TRANSITION));

    assert!(has_transition(&nfa, State(2), State(7), EPSILON_TRANSITION));
    assert!(has_transition(&nfa, State(7), State(8), SPACE_TRANSITION));
    assert!(has_transition(&nfa, State(8), State(2), EPSILON_TRANSITION));
    assert!(has_transition(&nfa, State(2), State(9), EPSILON_TRANSITION));
    assert!(has_transition(&nfa, State(9), State(10), DIGIT_TRANSITION));
    assert!(has_transition(&nfa, State(10), State(2), EPSILON_TRANSITION));

    assert!(has_transition(
        &nfa,
        State(2),
        NFA::accept_state(),
        EPSILON_TRANSITION
    ));

    assert_eq!(nfa.states.len(), 11);
}

#[test]
fn test_bracketed() {
    let parsed_ast = parse_pattern(r"[a-c3-9[A-X]]");
    let mut nfa = NFA::new();
    nfa.add_ast_to_nfa(&parsed_ast, NFA::start_state(), NFA::accept_state())
        .unwrap();

    assert!(has_transition(
        &nfa,
        NFA::start_state(),
        State(2),
        Transition::convert_char_range_to_symbol_onehot_encoding(Some((b'a', b'c')))
    ));
    assert!(has_transition(
        &nfa,
        State(2),
        State(3),
        Transition::convert_char_range_to_symbol_onehot_encoding(Some((b'3', b'9')))
    ));
    assert!(has_transition(
        &nfa,
        State(3),
        NFA::accept_state(),
        Transition::convert_char_range_to_symbol_onehot_encoding(Some((b'A', b'X')))
    ));
}

#[test]
fn test_floating_point_regex() {
    let parsed_ast = parse_pattern(r"\-{0,1}[0-9]+\.\d+");
    let mut nfa = NFA::new();
    nfa.add_ast_to_nfa(&parsed_ast, NFA::start_state(), NFA::accept_state())
        .unwrap();

    println!("{:?}", nfa.states.len());

    assert!(has_transition(
        &nfa,
        NFA::start_state(),
        State(3),
        EPSILON_TRANSITION
    ));
    assert!(has_transition(
        &nfa,
        State(3),
        State(4),
        Transition::convert_char_to_symbol_onehot_encoding('-')
    ));
    assert!(has_transition(&nfa, State(4), State(2), EPSILON_TRANSITION));

    assert!(has_transition(&nfa, State(2), State(6), DIGIT_TRANSITION));
    assert!(has_transition(&nfa, State(6), State(6), DIGIT_TRANSITION));

    assert!(has_transition(&nfa, State(6), State(5), EPSILON_TRANSITION));

    assert!(has_transition(
        &nfa,
        State(5),
        State(7),
        Transition::convert_char_to_symbol_onehot_encoding('.')
    ));
    assert!(has_transition(&nfa, State(7), State(8), DIGIT_TRANSITION));
    assert!(has_transition(&nfa, State(8), State(8), DIGIT_TRANSITION));
    assert!(has_transition(&nfa, State(8), State(1), EPSILON_TRANSITION));

    assert_eq!(nfa.states.len(), 9);
}

#[test]
fn test_unsupported_constructs_are_rejected() {
    let cases: Vec<(&str, Error)> = vec![
        (r"a*?", Error::NonGreedyRepetitionNotSupported),
        (r"(?:a)b", Error::UnsupportedGroupKindType),
        (r"[[:alpha:]]", Error::UnsupportedClassSetType),
        (r"\pL", Error::UnsupportedAstNodeType),
        (r"^a", Error::UnsupportedAstNodeType),
        (r"[^a]", Error::NegationNotSupported),
        (r"[a&&b]", Error::UnsupportedAstBracketedKind),
        (r"\D", Error::NegationNotSupported),
    ];
    for (pattern, expected) in cases {
        let parsed_ast = parse_pattern(pattern);
        let mut nfa = NFA::new();
        let result = nfa.add_ast_to_nfa(&parsed_ast, NFA::start_state(), NFA::accept_state());
        assert_eq!(result, Err(expected), "pattern {:?}", pattern);
    }
}

#[test]
fn test_non_ascii_literal_is_rejected() {
    let parsed_ast = parse_pattern("é");
    let mut nfa = NFA::new();
    let result = nfa.add_ast_to_nfa(&parsed_ast, NFA::start_state(), NFA::accept_state());
    assert_eq!(result, Err(Error::NoneASCIICharacters));
}

use log_lexer::ast::{ClassBracketed, ClassSet, ClassSetItem, GroupKind, PerlKind, RegexAst, RepetitionKind};
use log_lexer::errors::Error;
use log_lexer::lexer::{Lexer, TokenType};
use log_lexer::log_parser::LogParser;
use log_lexer::schema::{SchemaConfig, TimestampSchema, VarSchema};

fn to_perl_kind(kind: &regex_syntax::ast::ClassPerlKind) -> PerlKind {
    match kind {
        regex_syntax::ast::ClassPerlKind::Digit => PerlKind::Digit,
        regex_syntax::ast::ClassPerlKind::Space => PerlKind::Space,
        regex_syntax::ast::ClassPerlKind::Word => PerlKind::Word,
    }
}

fn to_class_set_item(item: &regex_syntax::ast::ClassSetItem) -> ClassSetItem {
    match item {
        regex_syntax::ast::ClassSetItem::Empty(_) => ClassSetItem::Empty,
        regex_syntax::ast::ClassSetItem::Literal(l) => ClassSetItem::Literal(l.c),
        regex_syntax::ast::ClassSetItem::Range(r) => ClassSetItem::Range(r.start.c, r.end.c),
        regex_syntax::ast::ClassSetItem::Ascii(_) => ClassSetItem::Ascii,
        regex_syntax::ast::ClassSetItem::Unicode(_) => ClassSetItem::Unicode,
        regex_syntax::ast::ClassSetItem::Perl(p) => ClassSetItem::Perl {
            negated: p.negated,
            kind: to_perl_kind(&p.kind),
        },
        regex_syntax::ast::ClassSetItem::Bracketed(b) => {
            ClassSetItem::Bracketed(Box::new(to_bracketed(b)))
        }
        regex_syntax::ast::ClassSetItem::Union(u) => {
            ClassSetItem::Union(u.items.iter().map(to_class_set_item).collect())
        }
    }
}

fn to_bracketed(b: &regex_syntax::ast::ClassBracketed) -> ClassBracketed {
    ClassBracketed {
        negated: b.negated,
        kind: match &b.kind {
            regex_syntax::ast::ClassSet::Item(item) => ClassSet::Item(to_class_set_item(item)),
            regex_syntax::ast::ClassSet::BinaryOp(_) => ClassSet::BinaryOp,
        },
    }
}

fn to_pattern(ast: &regex_syntax::ast::Ast) -> RegexAst {
    match ast {
        regex_syntax::ast::Ast::Empty(_) => RegexAst::Empty,
        regex_syntax::ast::Ast::Flags(_) => RegexAst::Flags,
        regex_syntax::ast::Ast::Literal(l) => RegexAst::Literal(l.c),
        regex_syntax::ast::Ast::Dot(_) => RegexAst::Dot,
        regex_syntax::ast::Ast::Assertion(_) => RegexAst::Assertion,
        regex_syntax::ast::Ast::ClassUnicode(_) => RegexAst::ClassUnicode,
        regex_syntax::ast::Ast::ClassPerl(p) => RegexAst::ClassPerl {
            negated: p.negated,
            kind: to_perl_kind(&p.kind),
        },
        regex_syntax::ast::Ast::ClassBracketed(b) => RegexAst::ClassBracketed(Box::new(to_bracketed(b))),
        regex_syntax::ast::Ast::Repetition(r) => RegexAst::Repetition {
            greedy: r.greedy,
            kind: match &r.op.kind {
                regex_syntax::ast::RepetitionKind::ZeroOrOne => RepetitionKind::ZeroOrOne,
                regex_syntax::ast::RepetitionKind::ZeroOrMore => RepetitionKind::ZeroOrMore,
                regex_syntax::ast::RepetitionKind::OneOrMore => RepetitionKind::OneOrMore,
                regex_syntax::ast::RepetitionKind::Range(range) => match range {
                    regex_syntax::ast::RepetitionRange::Exactly(n) => RepetitionKind::Exactly(*n),
                    regex_syntax::ast::RepetitionRange::AtLeast(n) => RepetitionKind::AtLeast(*n),
                    regex_syntax::ast::RepetitionRange::Bounded(a, b) => {
                        RepetitionKind::Bounded(*a, *b)
                    }
                },
            },
            ast: Box::new(to_pattern(&r.ast)),
        },
        regex_syntax::ast::Ast::Group(g) => RegexAst::Group {
            kind: match &g.kind {
                regex_syntax::ast::GroupKind::CaptureIndex(i) => GroupKind::CaptureIndex(*i),
                regex_syntax::ast::GroupKind::CaptureName { .. } => GroupKind::CaptureName(0),
                regex_syntax::ast::GroupKind::NonCapturing(_) => GroupKind::NonCapturing,
            },
            ast: Box::new(to_pattern(&g.ast)),
        },
        regex_syntax::ast::Ast::Alternation(a) => RegexAst::Alternation(a.asts.iter().map(to_pattern).collect()),
        regex_syntax::ast::Ast::Concat(c) => RegexAst::Concat(c.asts.iter().map(to_pattern).collect()),
    }
}

fn parse_pattern(pattern: &str) -> RegexAst {
    let ast = regex_syntax::ast::parse::Parser::new().parse(pattern).unwrap();
    to_pattern(&ast)
}

fn demo_schema() -> SchemaConfig {
    let ts = vec![TimestampSchema::new(
        String::from(r"\d{4}-\d{2}-\d{2}"),
        parse_pattern(r"\d{4}-\d{2}-\d{2}"),
    )];
    let vars = vec![VarSchema::new(
        String::from("id"),
        String::from(r"\d+"),
        parse_pattern(r"\d+"),
    )];
    match SchemaConfig::from_parts(ts, vars, &vec![b' ']) {
        Ok(s) => s,
        Err(_) => panic!("delimiters are ASCII"),
    }
}

#[test]
fn test_end_to_end_parse() {
    let schema = demo_schema();
    let mut parser = match LogParser::new(schema) {
        Ok(p) => p,
        Err(_) => panic!("patterns are supported"),
    };
    parser.set_input_stream(b"2024-01-02 hello id=42\n2024-01-03 bye\n".to_vec());

    let event1 = parser.parse_next_log_event().unwrap().unwrap();
    let types1: Vec<TokenType> = event1
        .tokens
        .iter()
        .map(|t| t.get_token_type())
        .collect();
    assert_eq!(
        types1,
        vec![
            TokenType::Timestamp(0),
            TokenType::Whitespace,
            TokenType::StaticText,
            TokenType::Whitespace,
            TokenType::StaticText,
            TokenType::Newline,
        ]
    );
    let lexemes1: Vec<&[u8]> = event1
        .tokens
        .iter()
        .map(|t| t.get_lexeme().as_slice())
        .collect();
    assert_eq!(
        lexemes1,
        vec![
            b"2024-01-02".as_slice(),
            b" ".as_slice(),
            b"hello".as_slice(),
            b" ".as_slice(),
            b"id=42".as_slice(),
            b"\n".as_slice(),
        ]
    );
    assert!(event1.get_timestamp_token().is_some());
    assert_eq!(event1.get_line_range(), (1, 1));
    assert_eq!(event1.get_log_message_tokens().len(), 5);

    let event2 = parser.parse_next_log_event().unwrap().unwrap();
    let types2: Vec<TokenType> = event2
        .tokens
        .iter()
        .map(|t| t.get_token_type())
        .collect();
    assert_eq!(
        types2,
        vec![
            TokenType::Timestamp(0),
            TokenType::Whitespace,
            TokenType::StaticText,
            TokenType::Newline,
        ]
    );
    assert_eq!(event2.get_line_range(), (2, 2));

    assert!(parser.parse_next_log_event().unwrap().is_none());
}

#[test]
fn test_variable_token_and_tie_break() {
    let schema = demo_schema();
    let mut lexer = match Lexer::new(&schema) {
        Ok(l) => l,
        Err(_) => panic!("patterns are supported"),
    };
    lexer.set_input_stream(b"1234 12".to_vec());
    let t1 = lexer.get_next_token().unwrap().unwrap();
    // Every byte is a digit, so the variable pattern matches the whole lexeme.
    assert_eq!(t1.get_token_type(), TokenType::Variable(0));
    assert_eq!(t1.get_lexeme().as_slice(), b"1234");
    let t2 = lexer.get_next_token().unwrap().unwrap();
    assert_eq!(t2.get_token_type(), TokenType::Whitespace);
    let t3 = lexer.get_next_token().unwrap().unwrap();
    assert_eq!(t3.get_token_type(), TokenType::Variable(0));
    assert_eq!(t3.get_lexeme().as_slice(), b"12");
    assert!(lexer.get_next_token().unwrap().is_none());
}

#[test]
fn test_tokenize_round_trip_and_newline_count() {
    let schema = demo_schema();
    let mut lexer = match Lexer::new(&schema) {
        Ok(l) => l,
        Err(_) => panic!("patterns are supported"),
    };
    let input = b"2024-01-02 a 42\nplain\n\ntail".to_vec();
    lexer.set_input_stream(input.clone());
    let tokens = lexer.tokenize().unwrap();

    let mut rebuilt: Vec<u8> = Vec::new();
    let mut newline_tokens = 0;
    for tok in &tokens {
        rebuilt.extend_from_slice(tok.get_lexeme().as_slice());
        assert!(!tok.get_lexeme().is_empty());
        assert!(tok.get_lexeme().iter().all(|b| *b < 128));
        if tok.get_token_type() == TokenType::Newline {
            newline_tokens += 1;
        }
    }
    assert_eq!(rebuilt, input);
    let newline_bytes = input.iter().filter(|b| **b == b'\n').count();
    assert_eq!(newline_tokens, newline_bytes);
    assert_eq!(newline_tokens, 3);
}

#[test]
fn test_non_ascii_input_is_rejected() {
    let schema = demo_schema();
    let mut lexer = match Lexer::new(&schema) {
        Ok(l) => l,
        Err(_) => panic!("patterns are supported"),
    };
    lexer.set_input_stream(vec![b'a', 0x80, b'b']);
    assert_eq!(lexer.tokenize().unwrap_err(), Error::NoneASCIICharacters);
}

#[test]
fn test_non_ascii_delimiter_is_rejected() {
    let r = SchemaConfig::from_parts(Vec::new(), Vec::new(), &vec![b' ', 0xC3]);
    let err = match r {
        Ok(_) => panic!("expected an error"),
        Err(e) => e,
    };
    assert_eq!(err, Error::NoneASCIICharacters);
}

#[test]
fn test_newline_is_always_a_delimiter() {
    let schema = match SchemaConfig::from_parts(Vec::new(), Vec::new(), &vec![b' ']) {
        Ok(s) => s,
        Err(_) => panic!("delimiters are ASCII"),
    };
    assert!(schema.has_delimiter('\n'));
    assert!(schema.has_delimiter(' '));
    assert!(!schema.has_delimiter('x'));
    assert!(!schema.has_delimiter('é'));
}

#[test]
fn test_unsupported_pattern_fails_lexer_construction() {
    let ts = vec![TimestampSchema::new(
        String::from(r"\D"),
        parse_pattern(r"\D"),
    )];
    let schema = match SchemaConfig::from_parts(ts, Vec::new(), &vec![b' ']) {
        Ok(s) => s,
        Err(_) => panic!("delimiters are ASCII"),
    };
    let err = match Lexer::new(&schema) {
        Ok(_) => panic!("expected an error"),
        Err(e) => e,
    };
    assert_eq!(err, Error::NegationNotSupported);
}

#[test]
fn test_line_numbers_follow_newlines() {
    let schema = demo_schema();
    let mut lexer = match Lexer::new(&schema) {
        Ok(l) => l,
        Err(_) => panic!("patterns are supported"),
    };
    lexer.set_input_stream(b"a\nb\nc".to_vec());
    let tokens = lexer.tokenize().unwrap();
    let lines: Vec<usize> = tokens.iter().map(|t| t.get_line_num()).collect();
    assert_eq!(lines, vec![1, 1, 2, 2, 3]);
}

#[test]
fn test_event_without_timestamp() {
    let schema = demo_schema();
    let mut parser = match LogParser::new(schema) {
        Ok(p) => p,
        Err(_) => panic!("patterns are supported"),
    };
    parser.set_input_stream(b"plain text\n".to_vec());
    let event = parser.parse_next_log_event().unwrap().unwrap();
    assert!(event.get_timestamp_token().is_none());
    assert_eq!(event.get_log_message_tokens().len(), event.tokens.len());
    assert_eq!(event.get_line_range(), (1, 1));
    assert!(parser.parse_next_log_event().unwrap().is_none());
}

#[test]
fn test_empty_input_gives_no_event() {
    let schema = demo_schema();
    let mut parser = match LogParser::new(schema) {
        Ok(p) => p,
        Err(_) => panic!("patterns are supported"),
    };
    parser.set_input_stream(Vec::new());
    assert!(parser.parse_next_log_event().unwrap().is_none());
}

#[test]
fn test_zero_or_more_pattern_emits_no_zero_length_token() {
    // A pattern that matches the empty string must never yield a zero-length
    // token; every produced token carries at least one byte.
    let vars = vec![VarSchema::new(
        String::from("a"),
        String::from(r"a*"),
        parse_pattern(r"a*"),
    )];
    let schema = match SchemaConfig::from_parts(Vec::new(), vars, &vec![b' ']) {
        Ok(s) => s,
        Err(_) => panic!("delimiters are ASCII"),
    };
    let mut lexer = match Lexer::new(&schema) {
        Ok(l) => l,
        Err(_) => panic!("patterns are supported"),
    };
    lexer.set_input_stream(b"aa b aa".to_vec());
    let tokens = lexer.tokenize().unwrap();
    assert!(tokens.iter().all(|t| !t.get_lexeme().is_empty()));
    assert_eq!(tokens.len(), 5);
    assert_eq!(tokens[0].get_token_type(), TokenType::Variable(0));
    assert_eq!(tokens[2].get_token_type(), TokenType::StaticText);
    assert_eq!(tokens[4].get_token_type(), TokenType::Variable(0));
}

#[test]
fn test_event_rendering() {
    let schema = demo_schema();
    let mut parser = match LogParser::new(schema) {
        Ok(p) => p,
        Err(_) => panic!("patterns are supported"),
    };
    parser.set_input_stream(b"2024-01-02 hi\nmore\n".to_vec());
    let event = parser.parse_next_log_event().unwrap().unwrap();
    assert_eq!(
        event.render(),
        "Timestamp:\n\t2024-01-02\nLine 1:\n\t \n\thi\n\t\n\nLine 2:\n\tmore\n\t\n\n"
    );

    parser.set_input_stream(b"x\n".to_vec());
    let plain = parser.parse_next_log_event().unwrap().unwrap();
    assert_eq!(plain.render(), "Timestamp:\n\tNONE\nLine 1:\n\tx\n\t\n\n");
}

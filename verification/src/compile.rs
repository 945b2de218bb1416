//! Thompson-style compilation of a pattern syntax tree into an NFA fragment.
//!
//! `add_ast_to_nfa` extends an automaton so that a fragment for the pattern
//! spans two given states. The specification has two halves: `spec_ast_supported`
//! says exactly when compilation succeeds, and `spec_fragment` says which
//! wiring the construction guarantees between the two states on success.

use vstd::prelude::*;

use crate::ast::ClassBracketed;
use crate::ast::ClassSet;
use crate::ast::ClassSetItem;
use crate::ast::GroupKind;
use crate::ast::PerlKind;
use crate::ast::RegexAst;
use crate::ast::RepetitionKind;
use crate::ast::spec_repetition_range;
use crate::errors::Error;
use crate::nfa::DIGIT_TRANSITION;
use crate::nfa::DOT_TRANSITION;
use crate::nfa::NFA;
use crate::nfa::SPACE_TRANSITION;
use crate::nfa::State;
use crate::nfa::Transition;
use crate::nfa::WORD_TRANSITION;
use crate::nfa::spec_range_onehot;

verus! {

/// The bitmap a Perl class compiles to.
pub open spec fn spec_perl_onehot(kind: PerlKind) -> u128 {
    match kind {
        PerlKind::Digit => DIGIT_TRANSITION,
        PerlKind::Space => SPACE_TRANSITION,
        PerlKind::Word => WORD_TRANSITION,
    }
}

/// The symbolic reasons pattern compilation can fail for.
pub open spec fn spec_compile_error(e: Error) -> bool {
    ||| e == Error::NoneASCIICharacters
    ||| e == Error::NegationNotSupported
    ||| e == Error::NonGreedyRepetitionNotSupported
    ||| e == Error::UnsupportedGroupKindType
    ||| e == Error::UnsupportedAstBracketedKind
    ||| e == Error::UnsupportedClassSetType
    ||| e == Error::UnsupportedAstNodeType
}

/// Exactly one edge `start -> end` with the given label and tag `-1` was
/// appended; no state was added and no other edge list changed.
pub open spec fn spec_one_edge_added(pre: NFA, post: NFA, start: State, end: State, label: u128) -> bool {
    &&& post.n() == pre.n()
    &&& post.edges(start.0 as int) == pre.edges(start.0 as int).push(
        (Transition { from: start, to: end, symbol_onehot_encoding: label, tag: -1i16 }),
    )
    &&& forall|i: int| 0 <= i < pre.n() && i != start.0 as int ==> post.edges(i) == pre.edges(i)
}

/// Exactly the patterns the builder compiles: ASCII literals, `.`, plain Perl
/// classes, greedy repetitions, plain bracket sets, indexed capture groups,
/// concatenations and alternations. A repetition bounded to zero copies never
/// visits its operand, so its operand is unconstrained.
pub open spec fn spec_ast_supported(ast: RegexAst) -> bool
    decreases ast,
{
    match ast {
        RegexAst::Literal(c) => c as u32 <= 127,
        RegexAst::Dot => true,
        RegexAst::ClassPerl { negated, kind } => !negated,
        RegexAst::ClassBracketed(b) => spec_bracketed_supported(*b),
        RegexAst::Repetition { greedy, kind, ast } => greedy && {
            let (min, omax) = spec_repetition_range(kind);
            (min == 0 && omax == Some(0u32)) || spec_ast_supported(*ast)
        },
        RegexAst::Group { kind, ast } => kind is CaptureIndex && spec_ast_supported(*ast),
        RegexAst::Alternation(children) => forall|i: int|
            0 <= i < children@.len() ==> spec_ast_supported(#[trigger] children@[i]),
        RegexAst::Concat(children) => forall|i: int|
            0 <= i < children@.len() ==> spec_ast_supported(#[trigger] children@[i]),
        _ => false,
    }
}

/// Exactly the bracket classes the builder compiles.
pub open spec fn spec_bracketed_supported(b: ClassBracketed) -> bool
    decreases b,
{
    !b.negated && match b.kind {
        ClassSet::Item(item) => spec_item_supported(item),
        ClassSet::BinaryOp => false,
    }
}

/// Exactly the class-set items the builder compiles.
pub open spec fn spec_item_supported(item: ClassSetItem) -> bool
    decreases item,
{
    match item {
        ClassSetItem::Literal(c) => c as u32 <= 127,
        ClassSetItem::Range(a, b) => a as u32 <= 127 && b as u32 <= 127,
        ClassSetItem::Perl { negated, kind } => !negated,
        ClassSetItem::Bracketed(b) => spec_bracketed_supported(*b),
        ClassSetItem::Union(items) => forall|i: int|
            0 <= i < items@.len() ==> spec_item_supported(#[trigger] items@[i]),
        _ => false,
    }
}

/// `r` names a state of the automaton.
pub open spec fn spec_state_in(n: NFA, r: int) -> bool {
    0 <= r < n.n()
}

/// The skeleton of a chain from `s` to `e`: `len + 1` stations inside the
/// automaton, the first being `s` and the last `e`.
pub open spec fn spec_chain_shape(n: NFA, mids: Seq<int>, len: int, s: int, e: int) -> bool {
    &&& mids.len() == len + 1
    &&& len >= 1
    &&& mids[0] == s
    &&& mids[len] == e
    &&& forall|i: int| 0 <= i <= len ==> 0 <= #[trigger] mids[i] < n.n()
}

/// The skeleton of `k` optional copies hanging off `r`: `k + 1` stations, the
/// first being `r`, and an epsilon edge from every later station to `e`.
pub open spec fn spec_options_shape(n: NFA, mids: Seq<int>, k: int, r: int, e: int) -> bool {
    &&& mids.len() == k + 1
    &&& k >= 1
    &&& mids[0] == r
    &&& (forall|i: int| 0 <= i <= k ==> 0 <= #[trigger] mids[i] < n.n())
    &&& (forall|i: int| 1 <= i <= k ==> n.has_edge(#[trigger] mids[i], e, 0u128))
}

/// The epsilon frame of one alternation branch between fresh states.
pub open spec fn spec_branch_shape(n: NFA, s: int, e: int, bs: int, be: int) -> bool {
    &&& 0 <= bs < n.n()
    &&& 0 <= be < n.n()
    &&& n.has_edge(s, bs, 0u128)
    &&& n.has_edge(be, e, 0u128)
}

/// The automaton holds a Thompson fragment for `ast` between states `s` and
/// `e`, wired exactly as the construction rules lay it out: a single labeled
/// edge for atoms, chained pieces through intermediate states for
/// concatenations, epsilon-framed branches for alternations, and a range-bound
/// state for repetitions.
pub open spec fn spec_fragment(n: NFA, ast: RegexAst, s: int, e: int) -> bool
    decreases ast, 0int,
{
    match ast {
        RegexAst::Literal(c) => n.has_edge(
            s,
            e,
            spec_range_onehot(c as u32 as int, c as u32 as int),
        ),
        RegexAst::Dot => n.has_edge(s, e, DOT_TRANSITION),
        RegexAst::ClassPerl { negated, kind } => n.has_edge(s, e, spec_perl_onehot(kind)),
        RegexAst::ClassBracketed(b) => spec_bracketed_fragment(n, *b, s, e),
        RegexAst::Group { kind, ast } => spec_fragment(n, *ast, s, e),
        RegexAst::Concat(children) => children@.len() == 0 || exists|mids: Seq<int>|
            {
                &&& #[trigger] spec_chain_shape(n, mids, children@.len() as int, s, e)
                &&& forall|i: int|
                    0 <= i < children@.len() ==> spec_fragment(
                        n,
                        children@[i],
                        #[trigger] mids[i],
                        mids[i + 1],
                    )
            },
        RegexAst::Alternation(children) => forall|i: int|
            0 <= i < children@.len() ==> spec_branch_built(n, #[trigger] children@[i], s, e),
        RegexAst::Repetition { greedy, kind, ast } => {
            let (min, omax) = spec_repetition_range(kind);
            exists|r: int|
                {
                    &&& #[trigger] spec_state_in(n, r)
                    &&& n.has_edge(r, e, 0u128)
                    &&& if min == 0 {
                        n.has_edge(s, r, 0u128)
                    } else {
                        exists|mids: Seq<int>|
                            {
                                &&& #[trigger] spec_chain_shape(n, mids, min as int, s, r)
                                &&& forall|i: int|
                                    0 <= i < min as int ==> spec_fragment(
                                        n,
                                        *ast,
                                        #[trigger] mids[i],
                                        mids[i + 1],
                                    )
                            }
                    }
                    &&& match omax {
                        Option::None => spec_fragment(n, *ast, r, r),
                        Option::Some(max) => min < max ==> exists|mids: Seq<int>|
                            {
                                &&& #[trigger] spec_options_shape(n, mids, max - min, r, e)
                                &&& forall|i: int|
                                    0 <= i < max - min ==> spec_fragment(
                                        n,
                                        *ast,
                                        #[trigger] mids[i],
                                        mids[i + 1],
                                    )
                            },
                    }
                }
        },
        _ => false,
    }
}

/// One alternation branch: a fragment framed by epsilon edges between fresh
/// branch states.
pub open spec fn spec_branch_built(n: NFA, child: RegexAst, s: int, e: int) -> bool
    decreases child, 1int,
{
    exists|bs: int, be: int|
        {
            &&& #[trigger] spec_branch_shape(n, s, e, bs, be)
            &&& spec_fragment(n, child, bs, be)
        }
}

/// A fragment for a bracket class between `s` and `e`.
pub open spec fn spec_bracketed_fragment(n: NFA, b: ClassBracketed, s: int, e: int) -> bool
    decreases b, 0int,
{
    match b.kind {
        ClassSet::Item(item) => spec_item_fragment(n, item, s, e),
        ClassSet::BinaryOp => false,
    }
}

/// A fragment for one class-set item between `s` and `e`; a union is chained
/// like a concatenation, one item per link.
pub open spec fn spec_item_fragment(n: NFA, item: ClassSetItem, s: int, e: int) -> bool
    decreases item, 0int,
{
    match item {
        ClassSetItem::Literal(c) => n.has_edge(
            s,
            e,
            spec_range_onehot(c as u32 as int, c as u32 as int),
        ),
        ClassSetItem::Range(a, b) => n.has_edge(
            s,
            e,
            spec_range_onehot(a as u32 as int, b as u32 as int),
        ),
        ClassSetItem::Perl { negated, kind } => n.has_edge(s, e, spec_perl_onehot(kind)),
        ClassSetItem::Bracketed(b) => spec_bracketed_fragment(n, *b, s, e),
        ClassSetItem::Union(items) => items@.len() == 0 || exists|mids: Seq<int>|
            {
                &&& #[trigger] spec_chain_shape(n, mids, items@.len() as int, s, e)
                &&& forall|i: int|
                    0 <= i < items@.len() ==> spec_item_fragment(
                        n,
                        items@[i],
                        #[trigger] mids[i],
                        mids[i + 1],
                    )
            },
        _ => false,
    }
}

/// Shapes persist as the automaton grows.
proof fn lemma_shapes_mono(pre: NFA, post: NFA)
    requires
        pre.wf(),
        post.extends(pre),
    ensures
        forall|mids: Seq<int>, len: int, s: int, e: int|
            #[trigger] spec_chain_shape(pre, mids, len, s, e) ==> spec_chain_shape(
                post,
                mids,
                len,
                s,
                e,
            ),
        forall|mids: Seq<int>, k: int, r: int, e: int|
            #[trigger] spec_options_shape(pre, mids, k, r, e) ==> spec_options_shape(
                post,
                mids,
                k,
                r,
                e,
            ),
        forall|s: int, e: int, bs: int, be: int|
            #[trigger] spec_branch_shape(pre, s, e, bs, be) ==> spec_branch_shape(
                post,
                s,
                e,
                bs,
                be,
            ),
{
    assert forall|mids: Seq<int>, k: int, r: int, e: int|
        #[trigger] spec_options_shape(pre, mids, k, r, e) implies spec_options_shape(
        post,
        mids,
        k,
        r,
        e,
    ) by {
        assert forall|i: int| 1 <= i <= k implies post.has_edge(#[trigger] mids[i], e, 0u128) by {
            post.lemma_extends_has_edge(pre, mids[i], e, 0u128);
        }
    }
    assert forall|s: int, e: int, bs: int, be: int|
        #[trigger] spec_branch_shape(pre, s, e, bs, be) implies spec_branch_shape(
        post,
        s,
        e,
        bs,
        be,
    ) by {
        post.lemma_extends_has_edge(pre, s, bs, 0u128);
        post.lemma_extends_has_edge(pre, be, e, 0u128);
    }
}

/// Fragments persist as the automaton grows.
pub proof fn lemma_fragment_mono(pre: NFA, post: NFA, ast: RegexAst, s: int, e: int)
    requires
        pre.wf(),
        post.extends(pre),
        spec_fragment(pre, ast, s, e),
    ensures
        spec_fragment(post, ast, s, e),
    decreases ast, 0int,
{
    lemma_shapes_mono(pre, post);
    match ast {
        RegexAst::Literal(c) => {
            post.lemma_extends_has_edge(
                pre,
                s,
                e,
                spec_range_onehot(c as u32 as int, c as u32 as int),
            );
        },
        RegexAst::Dot => {
            post.lemma_extends_has_edge(pre, s, e, DOT_TRANSITION);
        },
        RegexAst::ClassPerl { negated, kind } => {
            post.lemma_extends_has_edge(pre, s, e, spec_perl_onehot(kind));
        },
        RegexAst::ClassBracketed(b) => {
            lemma_bracketed_fragment_mono(pre, post, *b, s, e);
        },
        RegexAst::Group { kind, ast: inner } => {
            lemma_fragment_mono(pre, post, *inner, s, e);
        },
        RegexAst::Concat(children) => {
            if children@.len() > 0 {
                let cs = ast->Concat_0;
                assert(decreases_to!(ast => cs));
                assert(decreases_to!(cs => cs@));
                let clen = children@.len() as int;
                let mids = choose|mids: Seq<int>|
                    {
                        &&& #[trigger] spec_chain_shape(pre, mids, clen, s, e)
                        &&& forall|i: int|
                            0 <= i < clen ==> spec_fragment(
                                pre,
                                children@[i],
                                #[trigger] mids[i],
                                mids[i + 1],
                            )
                    };
                assert forall|i: int| 0 <= i < clen implies spec_fragment(
                    post,
                    children@[i],
                    #[trigger] mids[i],
                    mids[i + 1],
                ) by {
                    assert(decreases_to!(cs@ => cs@[i]));
                    lemma_fragment_mono(pre, post, children@[i], mids[i], mids[i + 1]);
                }
                assert(spec_chain_shape(post, mids, clen, s, e));
            }
        },
        RegexAst::Alternation(children) => {
            let cs = ast->Alternation_0;
            assert(decreases_to!(ast => cs));
            assert(decreases_to!(cs => cs@));
            assert forall|i: int| 0 <= i < children@.len() implies spec_branch_built(
                post,
                #[trigger] children@[i],
                s,
                e,
            ) by {
                assert(spec_branch_built(pre, children@[i], s, e));
                let (bs, be) = choose|bs: int, be: int|
                    {
                        &&& #[trigger] spec_branch_shape(pre, s, e, bs, be)
                        &&& spec_fragment(pre, children@[i], bs, be)
                    };
                assert(spec_branch_shape(pre, s, e, bs, be) && spec_fragment(pre, children@[i], bs, be));
                assert(decreases_to!(cs@ => cs@[i]));
                lemma_fragment_mono(pre, post, children@[i], bs, be);
                assert(spec_branch_shape(post, s, e, bs, be));
            }
        },
        RegexAst::Repetition { greedy, kind, ast: inner } => {
            let bx = ast->Repetition_ast;
            assert(decreases_to!(ast => bx));
            let (min, omax) = spec_repetition_range(kind);
            let r = choose|r: int|
                {
                    &&& #[trigger] spec_state_in(pre, r)
                    &&& pre.has_edge(r, e, 0u128)
                    &&& if min == 0 {
                        pre.has_edge(s, r, 0u128)
                    } else {
                        exists|mids: Seq<int>|
                            {
                                &&& #[trigger] spec_chain_shape(pre, mids, min as int, s, r)
                                &&& forall|i: int|
                                    0 <= i < min as int ==> spec_fragment(
                                        pre,
                                        *inner,
                                        #[trigger] mids[i],
                                        mids[i + 1],
                                    )
                            }
                    }
                    &&& match omax {
                        Option::None => spec_fragment(pre, *inner, r, r),
                        Option::Some(max) => min < max ==> exists|mids: Seq<int>|
                            {
                                &&& #[trigger] spec_options_shape(pre, mids, max - min, r, e)
                                &&& forall|i: int|
                                    0 <= i < max - min ==> spec_fragment(
                                        pre,
                                        *inner,
                                        #[trigger] mids[i],
                                        mids[i + 1],
                                    )
                            },
                    }
                };
            post.lemma_extends_has_edge(pre, r, e, 0u128);
            if min == 0 {
                post.lemma_extends_has_edge(pre, s, r, 0u128);
            } else {
                let mids = choose|mids: Seq<int>|
                    {
                        &&& #[trigger] spec_chain_shape(pre, mids, min as int, s, r)
                        &&& forall|i: int|
                            0 <= i < min as int ==> spec_fragment(
                                pre,
                                *inner,
                                #[trigger] mids[i],
                                mids[i + 1],
                            )
                    };
                assert forall|i: int| 0 <= i < min as int implies spec_fragment(
                    post,
                    *inner,
                    #[trigger] mids[i],
                    mids[i + 1],
                ) by {
                    lemma_fragment_mono(pre, post, *inner, mids[i], mids[i + 1]);
                }
                assert(spec_chain_shape(post, mids, min as int, s, r));
            }
            match omax {
                Option::None => {
                    lemma_fragment_mono(pre, post, *inner, r, r);
                },
                Option::Some(max) => {
                    if min < max {
                        let k = max - min;
                        let mids = choose|mids: Seq<int>|
                            {
                                &&& #[trigger] spec_options_shape(pre, mids, k, r, e)
                                &&& forall|i: int|
                                    0 <= i < k ==> spec_fragment(
                                        pre,
                                        *inner,
                                        #[trigger] mids[i],
                                        mids[i + 1],
                                    )
                            };
                        assert forall|i: int| 0 <= i < k implies spec_fragment(
                            post,
                            *inner,
                            #[trigger] mids[i],
                            mids[i + 1],
                        ) by {
                            lemma_fragment_mono(pre, post, *inner, mids[i], mids[i + 1]);
                        }
                        assert(spec_options_shape(post, mids, k, r, e));
                    }
                },
            }
            assert(spec_state_in(post, r));
        },
        _ => {},
    }
}

/// Bracket-class fragments persist as the automaton grows.
pub proof fn lemma_bracketed_fragment_mono(pre: NFA, post: NFA, b: ClassBracketed, s: int, e: int)
    requires
        pre.wf(),
        post.extends(pre),
        spec_bracketed_fragment(pre, b, s, e),
    ensures
        spec_bracketed_fragment(post, b, s, e),
    decreases b, 0int,
{
    match b.kind {
        ClassSet::Item(item) => {
            assert(decreases_to!(b => b.kind));
            lemma_item_fragment_mono(pre, post, item, s, e);
        },
        ClassSet::BinaryOp => {},
    }
}

/// Class-set item fragments persist as the automaton grows.
pub proof fn lemma_item_fragment_mono(pre: NFA, post: NFA, item: ClassSetItem, s: int, e: int)
    requires
        pre.wf(),
        post.extends(pre),
        spec_item_fragment(pre, item, s, e),
    ensures
        spec_item_fragment(post, item, s, e),
    decreases item, 1int,
{
    lemma_shapes_mono(pre, post);
    match item {
        ClassSetItem::Literal(c) => {
            post.lemma_extends_has_edge(
                pre,
                s,
                e,
                spec_range_onehot(c as u32 as int, c as u32 as int),
            );
        },
        ClassSetItem::Range(a, b) => {
            post.lemma_extends_has_edge(
                pre,
                s,
                e,
                spec_range_onehot(a as u32 as int, b as u32 as int),
            );
        },
        ClassSetItem::Perl { negated, kind } => {
            post.lemma_extends_has_edge(pre, s, e, spec_perl_onehot(kind));
        },
        ClassSetItem::Bracketed(b) => {
            lemma_bracketed_fragment_mono(pre, post, *b, s, e);
        },
        ClassSetItem::Union(items) => {
            if items@.len() > 0 {
                let cs = item->Union_0;
                assert(decreases_to!(item => cs));
                assert(decreases_to!(cs => cs@));
                let ilen = items@.len() as int;
                let mids = choose|mids: Seq<int>|
                    {
                        &&& #[trigger] spec_chain_shape(pre, mids, ilen, s, e)
                        &&& forall|i: int|
                            0 <= i < ilen ==> spec_item_fragment(
                                pre,
                                items@[i],
                                #[trigger] mids[i],
                                mids[i + 1],
                            )
                    };
                assert forall|i: int| 0 <= i < ilen implies spec_item_fragment(
                    post,
                    items@[i],
                    #[trigger] mids[i],
                    mids[i + 1],
                ) by {
                    assert(decreases_to!(cs@ => cs@[i]));
                    lemma_item_fragment_mono(pre, post, items@[i], mids[i], mids[i + 1]);
                }
                assert(spec_chain_shape(post, mids, ilen, s, e));
            }
        },
        _ => {},
    }
}

/// Rejects a character above ASCII, and returns its byte otherwise.
pub fn get_ascii_char(c: char) -> (r: Result<u8, Error>)
    ensures
        c as u32 <= 127 ==> (r matches Ok(b) && b == c as u32),
        c as u32 > 127 ==> (r matches Err(e) && e == Error::NoneASCIICharacters),
{
    let u: u32 = c as u32;
    if u > 127 {
        Err(Error::NoneASCIICharacters)
    } else {
        Ok(u as u8)
    }
}

impl NFA {
    /// Compiles one literal character: a single one-hot edge.
    fn add_literal(&mut self, c: char, start: State, end: State) -> (r: Result<(), Error>)
        requires
            old(self).wf(),
            start.0 < old(self).n(),
            end.0 < old(self).n(),
        ensures
            final(self).wf(),
            final(self).extends(*old(self)),
            final(self).start == old(self).start,
            final(self).accept == old(self).accept,
            r is Ok <==> c as u32 <= 127,
            r is Ok ==> final(self).has_edge(
                start.0 as int,
                end.0 as int,
                spec_range_onehot(c as u32 as int, c as u32 as int),
            ),
            r is Ok ==> spec_one_edge_added(
                *old(self),
                *final(self),
                start,
                end,
                spec_range_onehot(c as u32 as int, c as u32 as int),
            ),
            r is Ok ==> spec_nfa_model(*final(self)) == spec_model_edge(
                spec_nfa_model(*old(self)),
                start.0 as int,
                end.0 as int,
                spec_range_onehot(c as u32 as int, c as u32 as int),
            ),
            r matches Err(e) ==> e == Error::NoneASCIICharacters,
            r matches Err(e) ==> spec_compile_error(e),
    {
        let b = match get_ascii_char(c) {
            Ok(b) => b,
            Err(e) => {
                return Err(e);
            },
        };
        self.add_transition_from_range(start, end, Some((b, b)));
        proof {
            lemma_model_edge(
                *old(self),
                *self,
                start,
                end,
                spec_range_onehot(c as u32 as int, c as u32 as int),
            );
        }
        Ok(())
    }

    /// Compiles `.`: a single all-ones edge.
    fn add_dot(&mut self, start: State, end: State) -> (r: Result<(), Error>)
        requires
            old(self).wf(),
            start.0 < old(self).n(),
            end.0 < old(self).n(),
        ensures
            final(self).wf(),
            final(self).extends(*old(self)),
            final(self).start == old(self).start,
            final(self).accept == old(self).accept,
            r is Ok,
            final(self).has_edge(start.0 as int, end.0 as int, DOT_TRANSITION),
            spec_one_edge_added(*old(self), *final(self), start, end, DOT_TRANSITION),
            spec_nfa_model(*final(self)) == spec_model_edge(
                spec_nfa_model(*old(self)),
                start.0 as int,
                end.0 as int,
                DOT_TRANSITION,
            ),
    {
        self.add_transition(start, end, DOT_TRANSITION);
        proof {
            lemma_model_edge(*old(self), *self, start, end, DOT_TRANSITION);
        }
        Ok(())
    }

    /// Compiles a Perl class: a single class-bitmap edge; negation is
    /// rejected.
    fn add_perl(&mut self, negated: bool, kind: PerlKind, start: State, end: State) -> (r: Result<
        (),
        Error,
    >)
        requires
            old(self).wf(),
            start.0 < old(self).n(),
            end.0 < old(self).n(),
        ensures
            final(self).wf(),
            final(self).extends(*old(self)),
            final(self).start == old(self).start,
            final(self).accept == old(self).accept,
            r is Ok <==> !negated,
            r is Ok ==> final(self).has_edge(
                start.0 as int,
                end.0 as int,
                spec_perl_onehot(kind),
            ),
            r is Ok ==> spec_one_edge_added(
                *old(self),
                *final(self),
                start,
                end,
                spec_perl_onehot(kind),
            ),
            r is Ok ==> spec_nfa_model(*final(self)) == spec_model_edge(
                spec_nfa_model(*old(self)),
                start.0 as int,
                end.0 as int,
                spec_perl_onehot(kind),
            ),
            r matches Err(e) ==> e == Error::NegationNotSupported,
            r matches Err(e) ==> spec_compile_error(e),
    {
        if negated {
            return Err(Error::NegationNotSupported);
        }
        match kind {
            PerlKind::Digit => self.add_transition(start, end, DIGIT_TRANSITION),
            PerlKind::Space => self.add_transition(start, end, SPACE_TRANSITION),
            PerlKind::Word => self.add_transition(start, end, WORD_TRANSITION),
        }
        proof {
            lemma_model_edge(*old(self), *self, start, end, spec_perl_onehot(kind));
        }
        Ok(())
    }

    /// Compiles a character range: a single edge whose bitmap covers the
    /// range.
    fn add_range(&mut self, a: char, b: char, start: State, end: State) -> (r: Result<(), Error>)
        requires
            old(self).wf(),
            start.0 < old(self).n(),
            end.0 < old(self).n(),
        ensures
            final(self).wf(),
            final(self).extends(*old(self)),
            final(self).start == old(self).start,
            final(self).accept == old(self).accept,
            r is Ok <==> (a as u32 <= 127 && b as u32 <= 127),
            r is Ok ==> final(self).has_edge(
                start.0 as int,
                end.0 as int,
                spec_range_onehot(a as u32 as int, b as u32 as int),
            ),
            r is Ok ==> spec_one_edge_added(
                *old(self),
                *final(self),
                start,
                end,
                spec_range_onehot(a as u32 as int, b as u32 as int),
            ),
            r is Ok ==> spec_nfa_model(*final(self)) == spec_model_edge(
                spec_nfa_model(*old(self)),
                start.0 as int,
                end.0 as int,
                spec_range_onehot(a as u32 as int, b as u32 as int),
            ),
            r matches Err(e) ==> e == Error::NoneASCIICharacters,
            r matches Err(e) ==> spec_compile_error(e),
    {
        let ba = match get_ascii_char(a) {
            Ok(x) => x,
            Err(e) => {
                return Err(e);
            },
        };
        let bb = match get_ascii_char(b) {
            Ok(x) => x,
            Err(e) => {
                return Err(e);
            },
        };
        self.add_transition_from_range(start, end, Some((ba, bb)));
        proof {
            lemma_model_edge(
                *old(self),
                *self,
                start,
                end,
                spec_range_onehot(a as u32 as int, b as u32 as int),
            );
        }
        Ok(())
    }

    /// The `(min, max)` bounds of a repetition operator, `None` meaning
    /// unbounded.
    pub fn get_repetition_range(kind: &RepetitionKind) -> (r: (u32, Option<u32>))
        ensures
            r == spec_repetition_range(*kind),
    {
        match kind {
            RepetitionKind::ZeroOrOne => (0, Some(1)),
            RepetitionKind::ZeroOrMore => (0, None),
            RepetitionKind::OneOrMore => (1, None),
            RepetitionKind::Exactly(num) => (*num, Some(*num)),
            RepetitionKind::AtLeast(num) => (*num, None),
            RepetitionKind::Bounded(begin, end) => (*begin, Some(*end)),
        }
    }
}

impl NFA {
    /// Compiles a concatenation: pieces chained through fresh intermediate
    /// states from `start` to `end`.
    #[verifier::rlimit(100)]
    #[verifier::spinoff_prover]
    #[verifier::loop_isolation(false)]
    fn add_concat(&mut self, asts: &Vec<RegexAst>, start: State, end: State) -> (r: Result<
        (),
        Error,
    >)
        requires
            old(self).wf(),
            start.0 < old(self).n(),
            end.0 < old(self).n(),
        ensures
            final(self).wf(),
            final(self).extends(*old(self)),
            final(self).start == old(self).start,
            final(self).accept == old(self).accept,
            r is Ok <==> (forall|i: int|
                0 <= i < asts@.len() ==> spec_ast_supported(#[trigger] asts@[i])),
            r is Ok ==> (asts@.len() == 0 || exists|mids: Seq<int>|
                {
                    &&& #[trigger] spec_chain_shape(
                        *final(self),
                        mids,
                        asts@.len() as int,
                        start.0 as int,
                        end.0 as int,
                    )
                    &&& forall|i: int|
                        0 <= i < asts@.len() ==> spec_fragment(
                            *final(self),
                            asts@[i],
                            #[trigger] mids[i],
                            mids[i + 1],
                        )
                }),
            r is Ok ==> spec_nfa_model(*final(self)) == spec_build_list(
                spec_nfa_model(*old(self)),
                asts@,
                0,
                start.0 as int,
                end.0 as int,
            ),
            r matches Err(e) ==> spec_compile_error(e),
        decreases asts, 1int,
    {
        let mut curr_start: State = start;
        let mut idx: usize = 0;
        let ghost mut mids: Seq<int> = seq![start.0 as int];
        while idx < asts.len()
            invariant
                self.wf(),
                self.extends(*old(self)),
                self.start == old(self).start,
                self.accept == old(self).accept,
                0 <= idx <= asts@.len(),
                mids.len() == idx + 1,
                mids[0] == start.0 as int,
                mids[idx as int] == curr_start.0 as int,
                curr_start.0 < self.n(),
                idx == asts@.len() && asts@.len() > 0 ==> curr_start.0 == end.0,
                forall|i: int| 0 <= i <= idx ==> 0 <= #[trigger] mids[i] < self.n(),
                forall|j: int|
                    0 <= j < idx ==> spec_fragment(
                        *self,
                        asts@[j],
                        #[trigger] mids[j],
                        mids[j + 1],
                    ),
                forall|j: int| 0 <= j < idx ==> spec_ast_supported(#[trigger] asts@[j]),
                spec_build_list(
                    spec_nfa_model(*old(self)),
                    asts@,
                    0,
                    start.0 as int,
                    end.0 as int,
                ) == spec_build_list(
                    spec_nfa_model(*self),
                    asts@,
                    idx as int,
                    curr_start.0 as int,
                    end.0 as int,
                ),
            decreases asts@.len() - idx,
        {
            let ghost pre_iter = *self;
            let curr_end: State = if idx == asts.len() - 1 {
                end
            } else {
                self.new_state()
            };
            let ghost pre_rec = *self;
            proof {
                assert(decreases_to!(asts => asts@));
                assert(decreases_to!(asts@ => asts@[idx as int]));
            }
            match self.compile_node(&asts[idx], curr_start, curr_end) {
                Ok(()) => {},
                Err(e) => {
                    proof {
                        self.lemma_extends_trans(pre_rec, pre_iter);
                        self.lemma_extends_trans(pre_iter, *old(self));
                        assert(!spec_ast_supported(asts@[idx as int]));
                    }
                    return Err(e);
                },
            }
            proof {
                self.lemma_extends_trans(pre_rec, pre_iter);
                self.lemma_extends_trans(pre_iter, *old(self));
                assert forall|j: int| 0 <= j < idx implies spec_fragment(
                    *self,
                    asts@[j],
                    #[trigger] mids[j],
                    mids[j + 1],
                ) by {
                    lemma_fragment_mono(pre_iter, *self, asts@[j], mids[j], mids[j + 1]);
                }
                mids = mids.push(curr_end.0 as int);
                if idx as int == asts@.len() - 1 {
                    assert(spec_build_list(
                        spec_nfa_model(pre_iter),
                        asts@,
                        idx as int,
                        curr_start.0 as int,
                        end.0 as int,
                    ) == spec_nfa_model(*self));
                } else {
                    lemma_model_alloc(pre_iter, pre_rec);
                    assert(curr_end.0 as int == spec_nfa_model(pre_iter).len());
                    assert(spec_build_list(
                        spec_nfa_model(pre_iter),
                        asts@,
                        idx as int,
                        curr_start.0 as int,
                        end.0 as int,
                    ) == spec_build_list(
                        spec_nfa_model(*self),
                        asts@,
                        idx + 1,
                        curr_end.0 as int,
                        end.0 as int,
                    ));
                }
            }
            curr_start = curr_end;
            idx = idx + 1;
        }
        proof {
            if asts@.len() > 0 {
                assert(spec_chain_shape(
                    *self,
                    mids,
                    asts@.len() as int,
                    start.0 as int,
                    end.0 as int,
                ));
            }
        }
        Ok(())
    }

    /// Compiles a bracket-set union: items chained through fresh intermediate
    /// states from `start` to `end`, one edge-like fragment per item.
    #[verifier::rlimit(100)]
    #[verifier::spinoff_prover]
    #[verifier::loop_isolation(false)]
    fn add_union(&mut self, items: &Vec<ClassSetItem>, start: State, end: State) -> (r: Result<
        (),
        Error,
    >)
        requires
            old(self).wf(),
            start.0 < old(self).n(),
            end.0 < old(self).n(),
        ensures
            final(self).wf(),
            final(self).extends(*old(self)),
            final(self).start == old(self).start,
            final(self).accept == old(self).accept,
            r is Ok <==> (forall|i: int|
                0 <= i < items@.len() ==> spec_item_supported(#[trigger] items@[i])),
            r is Ok ==> (items@.len() == 0 || exists|mids: Seq<int>|
                {
                    &&& #[trigger] spec_chain_shape(
                        *final(self),
                        mids,
                        items@.len() as int,
                        start.0 as int,
                        end.0 as int,
                    )
                    &&& forall|i: int|
                        0 <= i < items@.len() ==> spec_item_fragment(
                            *final(self),
                            items@[i],
                            #[trigger] mids[i],
                            mids[i + 1],
                        )
                }),
            r is Ok ==> spec_nfa_model(*final(self)) == spec_build_items(
                spec_nfa_model(*old(self)),
                items@,
                0,
                start.0 as int,
                end.0 as int,
            ),
            r matches Err(e) ==> spec_compile_error(e),
        decreases items, 1int,
    {
        let mut curr_start: State = start;
        let mut idx: usize = 0;
        let ghost mut mids: Seq<int> = seq![start.0 as int];
        while idx < items.len()
            invariant
                self.wf(),
                self.extends(*old(self)),
                self.start == old(self).start,
                self.accept == old(self).accept,
                0 <= idx <= items@.len(),
                mids.len() == idx + 1,
                mids[0] == start.0 as int,
                mids[idx as int] == curr_start.0 as int,
                curr_start.0 < self.n(),
                idx == items@.len() && items@.len() > 0 ==> curr_start.0 == end.0,
                forall|i: int| 0 <= i <= idx ==> 0 <= #[trigger] mids[i] < self.n(),
                forall|j: int|
                    0 <= j < idx ==> spec_item_fragment(
                        *self,
                        items@[j],
                        #[trigger] mids[j],
                        mids[j + 1],
                    ),
                forall|j: int| 0 <= j < idx ==> spec_item_supported(#[trigger] items@[j]),
                spec_build_items(
                    spec_nfa_model(*old(self)),
                    items@,
                    0,
                    start.0 as int,
                    end.0 as int,
                ) == spec_build_items(
                    spec_nfa_model(*self),
                    items@,
                    idx as int,
                    curr_start.0 as int,
                    end.0 as int,
                ),
            decreases items@.len() - idx,
        {
            let ghost pre_iter = *self;
            let curr_end: State = if idx == items.len() - 1 {
                end
            } else {
                self.new_state()
            };
            let ghost pre_rec = *self;
            proof {
                assert(decreases_to!(items => items@));
                assert(decreases_to!(items@ => items@[idx as int]));
            }
            match self.add_class_set_item(&items[idx], curr_start, curr_end) {
                Ok(()) => {},
                Err(e) => {
                    proof {
                        self.lemma_extends_trans(pre_rec, pre_iter);
                        self.lemma_extends_trans(pre_iter, *old(self));
                        assert(!spec_item_supported(items@[idx as int]));
                    }
                    return Err(e);
                },
            }
            proof {
                self.lemma_extends_trans(pre_rec, pre_iter);
                self.lemma_extends_trans(pre_iter, *old(self));
                assert forall|j: int| 0 <= j < idx implies spec_item_fragment(
                    *self,
                    items@[j],
                    #[trigger] mids[j],
                    mids[j + 1],
                ) by {
                    lemma_item_fragment_mono(pre_iter, *self, items@[j], mids[j], mids[j + 1]);
                }
                mids = mids.push(curr_end.0 as int);
                if idx as int == items@.len() - 1 {
                    assert(spec_build_items(
                        spec_nfa_model(pre_iter),
                        items@,
                        idx as int,
                        curr_start.0 as int,
                        end.0 as int,
                    ) == spec_nfa_model(*self));
                } else {
                    lemma_model_alloc(pre_iter, pre_rec);
                    assert(curr_end.0 as int == spec_nfa_model(pre_iter).len());
                    assert(spec_build_items(
                        spec_nfa_model(pre_iter),
                        items@,
                        idx as int,
                        curr_start.0 as int,
                        end.0 as int,
                    ) == spec_build_items(
                        spec_nfa_model(*self),
                        items@,
                        idx + 1,
                        curr_end.0 as int,
                        end.0 as int,
                    ));
                }
            }
            curr_start = curr_end;
            idx = idx + 1;
        }
        proof {
            if items@.len() > 0 {
                assert(spec_chain_shape(
                    *self,
                    mids,
                    items@.len() as int,
                    start.0 as int,
                    end.0 as int,
                ));
            }
        }
        Ok(())
    }

    /// Compiles an alternation: each branch through fresh states, framed by
    /// epsilon edges from `start` and to `end`.
    #[verifier::rlimit(100)]
    #[verifier::spinoff_prover]
    #[verifier::loop_isolation(false)]
    fn add_alternation(&mut self, asts: &Vec<RegexAst>, start: State, end: State) -> (r: Result<
        (),
        Error,
    >)
        requires
            old(self).wf(),
            start.0 < old(self).n(),
            end.0 < old(self).n(),
        ensures
            final(self).wf(),
            final(self).extends(*old(self)),
            final(self).start == old(self).start,
            final(self).accept == old(self).accept,
            r is Ok <==> (forall|i: int|
                0 <= i < asts@.len() ==> spec_ast_supported(#[trigger] asts@[i])),
            r is Ok ==> forall|i: int|
                0 <= i < asts@.len() ==> spec_branch_built(
                    *final(self),
                    #[trigger] asts@[i],
                    start.0 as int,
                    end.0 as int,
                ),
            r is Ok ==> spec_nfa_model(*final(self)) == spec_build_branches(
                spec_nfa_model(*old(self)),
                asts@,
                0,
                start.0 as int,
                end.0 as int,
            ),
            r matches Err(e) ==> spec_compile_error(e),
        decreases asts, 1int,
    {
        let mut idx: usize = 0;
        while idx < asts.len()
            invariant
                self.wf(),
                self.extends(*old(self)),
                self.start == old(self).start,
                self.accept == old(self).accept,
                0 <= idx <= asts@.len(),
                forall|j: int|
                    0 <= j < idx ==> spec_branch_built(
                        *self,
                        #[trigger] asts@[j],
                        start.0 as int,
                        end.0 as int,
                    ),
                forall|j: int| 0 <= j < idx ==> spec_ast_supported(#[trigger] asts@[j]),
                spec_build_branches(
                    spec_nfa_model(*old(self)),
                    asts@,
                    0,
                    start.0 as int,
                    end.0 as int,
                ) == spec_build_branches(
                    spec_nfa_model(*self),
                    asts@,
                    idx as int,
                    start.0 as int,
                    end.0 as int,
                ),
            decreases asts@.len() - idx,
        {
            let ghost pre_iter = *self;
            let sub_ast_start = self.new_state();
            let ghost st1 = *self;
            let sub_ast_end = self.new_state();
            let ghost st2 = *self;
            self.add_epsilon_transition(start, sub_ast_start);
            let ghost st3 = *self;
            self.add_epsilon_transition(sub_ast_end, end);
            let ghost pre_rec = *self;
            proof {
                lemma_model_alloc(pre_iter, st1);
                lemma_model_alloc(st1, st2);
                lemma_model_edge(st2, st3, start, sub_ast_start, 0u128);
                lemma_model_edge(st3, pre_rec, sub_ast_end, end, 0u128);
                assert(sub_ast_start.0 as int == spec_nfa_model(pre_iter).len());
                assert(sub_ast_end.0 as int == sub_ast_start.0 as int + 1);
            }
            proof {
                assert(decreases_to!(asts => asts@));
                assert(decreases_to!(asts@ => asts@[idx as int]));
            }
            match self.compile_node(&asts[idx], sub_ast_start, sub_ast_end) {
                Ok(()) => {},
                Err(e) => {
                    proof {
                        self.lemma_extends_trans(pre_rec, pre_iter);
                        self.lemma_extends_trans(pre_iter, *old(self));
                        assert(!spec_ast_supported(asts@[idx as int]));
                    }
                    return Err(e);
                },
            }
            proof {
                self.lemma_extends_trans(pre_rec, pre_iter);
                self.lemma_extends_trans(pre_iter, *old(self));
                self.lemma_extends_has_edge(
                    pre_rec,
                    start.0 as int,
                    sub_ast_start.0 as int,
                    0u128,
                );
                self.lemma_extends_has_edge(pre_rec, sub_ast_end.0 as int, end.0 as int, 0u128);
                assert(spec_branch_shape(
                    *self,
                    start.0 as int,
                    end.0 as int,
                    sub_ast_start.0 as int,
                    sub_ast_end.0 as int,
                ));
                assert(spec_branch_built(*self, asts@[idx as int], start.0 as int, end.0 as int));
                assert forall|j: int| 0 <= j < idx implies spec_branch_built(
                    *self,
                    #[trigger] asts@[j],
                    start.0 as int,
                    end.0 as int,
                ) by {
                    let (bs, be) = choose|bs: int, be: int|
                        {
                            &&& #[trigger] spec_branch_shape(
                                pre_iter,
                                start.0 as int,
                                end.0 as int,
                                bs,
                                be,
                            )
                            &&& spec_fragment(pre_iter, asts@[j], bs, be)
                        };
                    self.lemma_extends_has_edge(pre_iter, start.0 as int, bs, 0u128);
                    self.lemma_extends_has_edge(pre_iter, be, end.0 as int, 0u128);
                    lemma_fragment_mono(pre_iter, *self, asts@[j], bs, be);
                    assert(spec_branch_shape(*self, start.0 as int, end.0 as int, bs, be));
                }
                assert(spec_build_branches(
                    spec_nfa_model(pre_iter),
                    asts@,
                    idx as int,
                    start.0 as int,
                    end.0 as int,
                ) == spec_build_branches(
                    spec_nfa_model(*self),
                    asts@,
                    idx + 1,
                    start.0 as int,
                    end.0 as int,
                ));
            }
            idx = idx + 1;
        }
        Ok(())
    }

    /// Compiles a group: an indexed capture passes through to its operand;
    /// any other kind is rejected.
    fn add_group(&mut self, kind: &GroupKind, inner: &RegexAst, start: State, end: State) -> (r:
        Result<(), Error>)
        requires
            old(self).wf(),
            start.0 < old(self).n(),
            end.0 < old(self).n(),
        ensures
            final(self).wf(),
            final(self).extends(*old(self)),
            final(self).start == old(self).start,
            final(self).accept == old(self).accept,
            r is Ok <==> (*kind is CaptureIndex && spec_ast_supported(*inner)),
            r is Ok ==> spec_fragment(*final(self), *inner, start.0 as int, end.0 as int),
            r is Ok ==> spec_nfa_model(*final(self)) == spec_build(
                spec_nfa_model(*old(self)),
                *inner,
                start.0 as int,
                end.0 as int,
            ),
            !(*kind is CaptureIndex) ==> (r == Err::<(), Error>(Error::UnsupportedGroupKindType)
                && *final(self) == *old(self)),
            r matches Err(e) ==> spec_compile_error(e),
        decreases inner, 1int,
    {
        match kind {
            GroupKind::CaptureIndex(_) => self.compile_node(inner, start, end),
            _ => Err(Error::UnsupportedGroupKindType),
        }
    }

    /// Compiles a bracket class; negation and set operations are rejected.
    fn add_bracketed(&mut self, bracketed: &ClassBracketed, start: State, end: State) -> (r:
        Result<(), Error>)
        requires
            old(self).wf(),
            start.0 < old(self).n(),
            end.0 < old(self).n(),
        ensures
            final(self).wf(),
            final(self).extends(*old(self)),
            final(self).start == old(self).start,
            final(self).accept == old(self).accept,
            r is Ok <==> spec_bracketed_supported(*bracketed),
            r is Ok ==> spec_bracketed_fragment(
                *final(self),
                *bracketed,
                start.0 as int,
                end.0 as int,
            ),
            r is Ok ==> spec_nfa_model(*final(self)) == spec_build_bracketed(
                spec_nfa_model(*old(self)),
                *bracketed,
                start.0 as int,
                end.0 as int,
            ),
            bracketed.negated ==> (r == Err::<(), Error>(Error::NegationNotSupported) && *final(self) == *old(self)),
            !bracketed.negated && bracketed.kind is BinaryOp ==> (r == Err::<(), Error>(
                Error::UnsupportedAstBracketedKind,
            ) && *final(self) == *old(self)),
            r matches Err(e) ==> spec_compile_error(e),
        decreases bracketed, 0int,
    {
        if bracketed.negated {
            return Err(Error::NegationNotSupported);
        }
        match &bracketed.kind {
            ClassSet::Item(item) => {
                proof {
                    assert(decreases_to!(*bracketed => bracketed.kind));
                    assert(decreases_to!(bracketed.kind => bracketed.kind->Item_0));
                }
                let r = self.add_class_set_item(item, start, end);
                r
            },
            ClassSet::BinaryOp => Err(Error::UnsupportedAstBracketedKind),
        }
    }

    /// Compiles one class-set item.
    fn add_class_set_item(&mut self, item: &ClassSetItem, start: State, end: State) -> (r: Result<
        (),
        Error,
    >)
        requires
            old(self).wf(),
            start.0 < old(self).n(),
            end.0 < old(self).n(),
        ensures
            final(self).wf(),
            final(self).extends(*old(self)),
            final(self).start == old(self).start,
            final(self).accept == old(self).accept,
            r is Ok <==> spec_item_supported(*item),
            r is Ok ==> spec_item_fragment(*final(self), *item, start.0 as int, end.0 as int),
            r is Ok ==> spec_nfa_model(*final(self)) == spec_build_item(
                spec_nfa_model(*old(self)),
                *item,
                start.0 as int,
                end.0 as int,
            ),
            (*item is Empty || *item is Ascii || *item is Unicode) ==> (r == Err::<(), Error>(
                Error::UnsupportedClassSetType,
            ) && *final(self) == *old(self)),
            r matches Err(e) ==> spec_compile_error(e),
        decreases item, 0int,
    {
        match item {
            ClassSetItem::Literal(c) => self.add_literal(*c, start, end),
            ClassSetItem::Bracketed(bracketed) => {
                proof {
                    assert(decreases_to!(*item => item->Bracketed_0));
                }
                self.add_bracketed(bracketed, start, end)
            },
            ClassSetItem::Range(a, b) => self.add_range(*a, *b, start, end),
            ClassSetItem::Perl { negated, kind } => self.add_perl(*negated, *kind, start, end),
            ClassSetItem::Union(union) => {
                proof {
                    assert(decreases_to!(*item => item->Union_0));
                }
                let r = self.add_union(union, start, end);
                proof {
                    if r is Ok {
                        assert(spec_item_fragment(
                            *self,
                            *item,
                            start.0 as int,
                            end.0 as int,
                        ));
                    }
                }
                r
            },
            _ => Err(Error::UnsupportedClassSetType),
        }
    }
}

impl NFA {
    /// Compiles the mandatory copies of a repetition operand, chained from
    /// `start` up to the range-bound state through fresh intermediates.
    #[verifier::loop_isolation(false)]
    #[verifier::rlimit(100)]
    #[verifier::spinoff_prover]
    fn add_rep_chain(&mut self, inner: &RegexAst, start: State, rb: State, min: u32) -> (r: Result<
        (),
        Error,
    >)
        requires
            old(self).wf(),
            start.0 < old(self).n(),
            rb.0 < old(self).n(),
            min >= 1,
        ensures
            final(self).wf(),
            final(self).extends(*old(self)),
            final(self).start == old(self).start,
            final(self).accept == old(self).accept,
            r is Ok <==> spec_ast_supported(*inner),
            r is Ok ==> exists|mids: Seq<int>|
                {
                    &&& #[trigger] spec_chain_shape(
                        *final(self),
                        mids,
                        min as int,
                        start.0 as int,
                        rb.0 as int,
                    )
                    &&& forall|i: int|
                        0 <= i < min as int ==> spec_fragment(
                            *final(self),
                            *inner,
                            #[trigger] mids[i],
                            mids[i + 1],
                        )
                },
            r is Ok ==> spec_nfa_model(*final(self)) == spec_build_chain(
                spec_nfa_model(*old(self)),
                *inner,
                start.0 as int,
                rb.0 as int,
                min as int,
            ),
            r matches Err(e) ==> spec_compile_error(e),
        decreases inner, 1int,
    {
        let mut start_state: State = start;
        let ghost mut chain: Seq<int> = seq![start.0 as int];
        let mut c: u32 = 1;
        while c < min
            invariant
                self.wf(),
                self.extends(*old(self)),
                self.start == old(self).start,
                self.accept == old(self).accept,
                1 <= c <= min,
                start_state.0 < self.n(),
                chain.len() == c,
                chain[0] == start.0 as int,
                chain[c - 1] == start_state.0 as int,
                forall|i: int| 0 <= i < c ==> 0 <= #[trigger] chain[i] < self.n(),
                forall|j: int|
                    0 <= j < c - 1 ==> spec_fragment(
                        *self,
                        *inner,
                        #[trigger] chain[j],
                        chain[j + 1],
                    ),
                c > 1 ==> spec_ast_supported(*inner),
                spec_build_chain(
                    spec_nfa_model(*old(self)),
                    *inner,
                    start.0 as int,
                    rb.0 as int,
                    min as int,
                ) == spec_build_chain(
                    spec_nfa_model(*self),
                    *inner,
                    start_state.0 as int,
                    rb.0 as int,
                    min - c + 1,
                ),
            decreases min - c,
        {
            let ghost pre_iter = *self;
            let intermediate_state = self.new_state();
            let ghost pre_rec = *self;
            match self.compile_node(inner, start_state, intermediate_state) {
                Ok(()) => {},
                Err(e) => {
                    proof {
                        self.lemma_extends_trans(pre_rec, pre_iter);
                        self.lemma_extends_trans(pre_iter, *old(self));
                    }
                    return Err(e);
                },
            }
            proof {
                self.lemma_extends_trans(pre_rec, pre_iter);
                self.lemma_extends_trans(pre_iter, *old(self));
                assert forall|j: int| 0 <= j < c - 1 implies spec_fragment(
                    *self,
                    *inner,
                    #[trigger] chain[j],
                    chain[j + 1],
                ) by {
                    lemma_fragment_mono(pre_iter, *self, *inner, chain[j], chain[j + 1]);
                }
                chain = chain.push(intermediate_state.0 as int);
                lemma_model_alloc(pre_iter, pre_rec);
                assert(intermediate_state.0 as int == spec_nfa_model(pre_iter).len());
                assert(spec_build_chain(
                    spec_nfa_model(pre_iter),
                    *inner,
                    start_state.0 as int,
                    rb.0 as int,
                    min - c + 1,
                ) == spec_build_chain(
                    spec_nfa_model(*self),
                    *inner,
                    intermediate_state.0 as int,
                    rb.0 as int,
                    min - c,
                ));
            }
            start_state = intermediate_state;
            c = c + 1;
        }
        let ghost pre_last = *self;
        match self.compile_node(inner, start_state, rb) {
            Ok(()) => {},
            Err(e) => {
                proof {
                    self.lemma_extends_trans(pre_last, *old(self));
                }
                return Err(e);
            },
        }
        proof {
            self.lemma_extends_trans(pre_last, *old(self));
            assert forall|j: int| 0 <= j < min - 1 implies spec_fragment(
                *self,
                *inner,
                #[trigger] chain[j],
                chain[j + 1],
            ) by {
                lemma_fragment_mono(pre_last, *self, *inner, chain[j], chain[j + 1]);
            }
            chain = chain.push(rb.0 as int);
            assert(spec_chain_shape(*self, chain, min as int, start.0 as int, rb.0 as int));
            assert(spec_build_chain(
                spec_nfa_model(pre_last),
                *inner,
                start_state.0 as int,
                rb.0 as int,
                1,
            ) == spec_nfa_model(*self));
        }
        Ok(())
    }

    /// Compiles the optional tail copies of a bounded repetition, hanging off
    /// the range-bound state, each intermediate wired to `end` by an epsilon.
    #[verifier::loop_isolation(false)]
    #[verifier::rlimit(100)]
    #[verifier::spinoff_prover]
    fn add_rep_options(&mut self, inner: &RegexAst, rb: State, end: State, count: u32) -> (r:
        Result<(), Error>)
        requires
            old(self).wf(),
            rb.0 < old(self).n(),
            end.0 < old(self).n(),
            count >= 1,
        ensures
            final(self).wf(),
            final(self).extends(*old(self)),
            final(self).start == old(self).start,
            final(self).accept == old(self).accept,
            r is Ok <==> spec_ast_supported(*inner),
            r is Ok ==> exists|mids: Seq<int>|
                {
                    &&& #[trigger] spec_options_shape(
                        *final(self),
                        mids,
                        count as int,
                        rb.0 as int,
                        end.0 as int,
                    )
                    &&& forall|i: int|
                        0 <= i < count as int ==> spec_fragment(
                            *final(self),
                            *inner,
                            #[trigger] mids[i],
                            mids[i + 1],
                        )
                },
            r is Ok ==> spec_nfa_model(*final(self)) == spec_build_options(
                spec_nfa_model(*old(self)),
                *inner,
                rb.0 as int,
                end.0 as int,
                count as int,
            ),
            r matches Err(e) ==> spec_compile_error(e),
        decreases inner, 1int,
    {
        let mut start_state: State = rb;
        let ghost mut opts: Seq<int> = seq![rb.0 as int];
        let mut c: u32 = 0;
        while c < count
            invariant
                self.wf(),
                self.extends(*old(self)),
                self.start == old(self).start,
                self.accept == old(self).accept,
                0 <= c <= count,
                start_state.0 < self.n(),
                opts.len() == c + 1,
                opts[0] == rb.0 as int,
                opts[c as int] == start_state.0 as int,
                forall|i: int| 0 <= i <= c ==> 0 <= #[trigger] opts[i] < self.n(),
                forall|j: int|
                    0 <= j < c ==> spec_fragment(*self, *inner, #[trigger] opts[j], opts[j + 1])
                        && self.has_edge(opts[j + 1], end.0 as int, 0u128),
                c > 0 ==> spec_ast_supported(*inner),
                spec_build_options(
                    spec_nfa_model(*old(self)),
                    *inner,
                    rb.0 as int,
                    end.0 as int,
                    count as int,
                ) == spec_build_options(
                    spec_nfa_model(*self),
                    *inner,
                    start_state.0 as int,
                    end.0 as int,
                    count - c,
                ),
            decreases count - c,
        {
            let ghost pre_iter = *self;
            let intermediate_state = self.new_state();
            let ghost pre_rec = *self;
            match self.compile_node(inner, start_state, intermediate_state) {
                Ok(()) => {},
                Err(e) => {
                    proof {
                        self.lemma_extends_trans(pre_rec, pre_iter);
                        self.lemma_extends_trans(pre_iter, *old(self));
                    }
                    return Err(e);
                },
            }
            let ghost pre_eps = *self;
            self.add_epsilon_transition(intermediate_state, end);
            proof {
                self.lemma_extends_trans(pre_eps, pre_rec);
                self.lemma_extends_trans(pre_rec, pre_iter);
                self.lemma_extends_trans(pre_iter, *old(self));
                assert forall|j: int| 0 <= j < c implies spec_fragment(
                    *self,
                    *inner,
                    #[trigger] opts[j],
                    opts[j + 1],
                ) && self.has_edge(opts[j + 1], end.0 as int, 0u128) by {
                    lemma_fragment_mono(pre_iter, *self, *inner, opts[j], opts[j + 1]);
                    self.lemma_extends_has_edge(pre_iter, opts[j + 1], end.0 as int, 0u128);
                }
                lemma_fragment_mono(
                    pre_eps,
                    *self,
                    *inner,
                    start_state.0 as int,
                    intermediate_state.0 as int,
                );
                opts = opts.push(intermediate_state.0 as int);
                lemma_model_alloc(pre_iter, pre_rec);
                lemma_model_edge(pre_eps, *self, intermediate_state, end, 0u128);
                assert(intermediate_state.0 as int == spec_nfa_model(pre_iter).len());
                assert(spec_build_options(
                    spec_nfa_model(pre_iter),
                    *inner,
                    start_state.0 as int,
                    end.0 as int,
                    count - c,
                ) == spec_build_options(
                    spec_nfa_model(*self),
                    *inner,
                    intermediate_state.0 as int,
                    end.0 as int,
                    count - c - 1,
                ));
            }
            start_state = intermediate_state;
            c = c + 1;
        }
        proof {
            assert forall|i: int| 1 <= i <= count as int implies self.has_edge(
                #[trigger] opts[i],
                end.0 as int,
                0u128,
            ) by {
                assert(spec_fragment(*self, *inner, opts[i - 1], opts[i]) && self.has_edge(
                    opts[(i - 1) + 1],
                    end.0 as int,
                    0u128,
                ));
            }
            assert(spec_options_shape(
                *self,
                opts,
                count as int,
                rb.0 as int,
                end.0 as int,
            ));
        }
        Ok(())
    }

    /// Compiles a repetition around a fresh range-bound state: the mandatory
    /// copies chained up to it, an epsilon to `end`, and either a loop on it
    /// or a tail of optional copies. Non-greedy repetition is rejected.
    #[verifier::rlimit(100)]
    #[verifier::spinoff_prover]
    fn add_repetition(
        &mut self,
        greedy: bool,
        kind: &RepetitionKind,
        inner: &RegexAst,
        start: State,
        end: State,
    ) -> (r: Result<(), Error>)
        requires
            old(self).wf(),
            start.0 < old(self).n(),
            end.0 < old(self).n(),
        ensures
            final(self).wf(),
            final(self).extends(*old(self)),
            final(self).start == old(self).start,
            final(self).accept == old(self).accept,
            r is Ok <==> (greedy && {
                let (min, omax) = spec_repetition_range(*kind);
                (min == 0 && omax == Some(0u32)) || spec_ast_supported(*inner)
            }),
            !greedy ==> (r == Err::<(), Error>(Error::NonGreedyRepetitionNotSupported) && *final(self) == *old(self)),
            r is Ok ==> spec_nfa_model(*final(self)) == spec_build_repetition(
                spec_nfa_model(*old(self)),
                *inner,
                spec_repetition_range(*kind),
                start.0 as int,
                end.0 as int,
            ),
            r is Ok ==> ({
                let (min, omax) = spec_repetition_range(*kind);
                exists|rb: int|
                    {
                        &&& #[trigger] spec_state_in(*final(self), rb)
                        &&& final(self).has_edge(rb, end.0 as int, 0u128)
                        &&& if min == 0 {
                            final(self).has_edge(start.0 as int, rb, 0u128)
                        } else {
                            exists|mids: Seq<int>|
                                {
                                    &&& #[trigger] spec_chain_shape(
                                        *final(self),
                                        mids,
                                        min as int,
                                        start.0 as int,
                                        rb,
                                    )
                                    &&& forall|i: int|
                                        0 <= i < min as int ==> spec_fragment(
                                            *final(self),
                                            *inner,
                                            #[trigger] mids[i],
                                            mids[i + 1],
                                        )
                                }
                        }
                        &&& match omax {
                            Option::None => spec_fragment(*final(self), *inner, rb, rb),
                            Option::Some(max) => min < max ==> exists|mids: Seq<int>|
                                {
                                    &&& #[trigger] spec_options_shape(
                                        *final(self),
                                        mids,
                                        max - min,
                                        rb,
                                        end.0 as int,
                                    )
                                    &&& forall|i: int|
                                        0 <= i < max - min ==> spec_fragment(
                                            *final(self),
                                            *inner,
                                            #[trigger] mids[i],
                                            mids[i + 1],
                                        )
                                },
                        }
                    }
            }),
            r matches Err(e) ==> spec_compile_error(e),
        decreases inner, 2int,
    {
        if !greedy {
            return Err(Error::NonGreedyRepetitionNotSupported);
        }
        let (min, optional_max) = Self::get_repetition_range(kind);
        let range_bound_state = self.new_state();
        let ghost r_idx = range_bound_state.0 as int;
        let ghost n_after_new = *self;
        let ghost mut chain: Seq<int> = seq![];
        proof {
            lemma_model_alloc(*old(self), n_after_new);
            assert(r_idx == spec_nfa_model(*old(self)).len());
        }

        if min == 0 {
            self.add_epsilon_transition(start, range_bound_state);
            proof {
                self.lemma_extends_trans(n_after_new, *old(self));
                lemma_model_edge(n_after_new, *self, start, range_bound_state, 0u128);
            }
        } else {
            match self.add_rep_chain(inner, start, range_bound_state, min) {
                Ok(()) => {},
                Err(e) => {
                    proof {
                        self.lemma_extends_trans(n_after_new, *old(self));
                    }
                    return Err(e);
                },
            }
            proof {
                self.lemma_extends_trans(n_after_new, *old(self));
                chain = choose|mids: Seq<int>|
                    {
                        &&& #[trigger] spec_chain_shape(
                            *self,
                            mids,
                            min as int,
                            start.0 as int,
                            r_idx,
                        )
                        &&& forall|i: int|
                            0 <= i < min as int ==> spec_fragment(
                                *self,
                                *inner,
                                #[trigger] mids[i],
                                mids[i + 1],
                            )
                    };
            }
        }
        let ghost pre_eps = *self;
        self.add_epsilon_transition(range_bound_state, end);
        proof {
            self.lemma_extends_trans(pre_eps, *old(self));
            lemma_model_edge(pre_eps, *self, range_bound_state, end, 0u128);
            lemma_shapes_mono(pre_eps, *self);
            if min == 0 {
                self.lemma_extends_has_edge(pre_eps, start.0 as int, r_idx, 0u128);
            } else {
                assert forall|j: int| 0 <= j < min as int implies spec_fragment(
                    *self,
                    *inner,
                    #[trigger] chain[j],
                    chain[j + 1],
                ) by {
                    lemma_fragment_mono(pre_eps, *self, *inner, chain[j], chain[j + 1]);
                }
            }
        }
        match optional_max {
            Option::None => {
                let ghost pre_loop = *self;
                match self.compile_node(inner, range_bound_state, range_bound_state) {
                    Ok(()) => {},
                    Err(e) => {
                        proof {
                            self.lemma_extends_trans(pre_loop, *old(self));
                        }
                        return Err(e);
                    },
                }
                proof {
                    self.lemma_extends_trans(pre_loop, *old(self));
                    lemma_shapes_mono(pre_loop, *self);
                    self.lemma_extends_has_edge(pre_loop, r_idx, end.0 as int, 0u128);
                    if min == 0 {
                        self.lemma_extends_has_edge(pre_loop, start.0 as int, r_idx, 0u128);
                    } else {
                        assert forall|j: int| 0 <= j < min as int implies spec_fragment(
                            *self,
                            *inner,
                            #[trigger] chain[j],
                            chain[j + 1],
                        ) by {
                            lemma_fragment_mono(pre_loop, *self, *inner, chain[j], chain[j + 1]);
                        }
                        assert(spec_chain_shape(*self, chain, min as int, start.0 as int, r_idx));
                    }
                    assert(spec_state_in(*self, r_idx));
                    assert(spec_nfa_model(*self) == spec_build_repetition(
                        spec_nfa_model(*old(self)),
                        *inner,
                        spec_repetition_range(*kind),
                        start.0 as int,
                        end.0 as int,
                    ));
                }
                Ok(())
            },
            Option::Some(max) => {
                if max <= min {
                    proof {
                        assert(spec_state_in(*self, r_idx));
                        assert(spec_nfa_model(*self) == spec_build_repetition(
                            spec_nfa_model(*old(self)),
                            *inner,
                            spec_repetition_range(*kind),
                            start.0 as int,
                            end.0 as int,
                        ));
                    }
                    return Ok(());
                }
                let ghost pre_opt = *self;
                match self.add_rep_options(inner, range_bound_state, end, max - min) {
                    Ok(()) => {},
                    Err(e) => {
                        proof {
                            self.lemma_extends_trans(pre_opt, *old(self));
                        }
                        return Err(e);
                    },
                }
                proof {
                    self.lemma_extends_trans(pre_opt, *old(self));
                    lemma_shapes_mono(pre_opt, *self);
                    self.lemma_extends_has_edge(pre_opt, r_idx, end.0 as int, 0u128);
                    if min == 0 {
                        self.lemma_extends_has_edge(pre_opt, start.0 as int, r_idx, 0u128);
                    } else {
                        assert forall|j: int| 0 <= j < min as int implies spec_fragment(
                            *self,
                            *inner,
                            #[trigger] chain[j],
                            chain[j + 1],
                        ) by {
                            lemma_fragment_mono(pre_opt, *self, *inner, chain[j], chain[j + 1]);
                        }
                        assert(spec_chain_shape(*self, chain, min as int, start.0 as int, r_idx));
                    }
                    assert(spec_state_in(*self, r_idx));
                    assert(spec_nfa_model(*self) == spec_build_repetition(
                        spec_nfa_model(*old(self)),
                        *inner,
                        spec_repetition_range(*kind),
                        start.0 as int,
                        end.0 as int,
                    ));
                }
                Ok(())
            },
        }
    }

    /// The recursive compilation step behind `add_ast_to_nfa`: dispatch on
    /// the node kind. On an error inside a composite, partial work remains,
    /// but the automaton only grows and stays sound; the public entry point
    /// rolls it back.
    fn compile_node(&mut self, ast: &RegexAst, start: State, end: State) -> (r: Result<
        (),
        Error,
    >)
        requires
            old(self).wf(),
            start.0 < old(self).n(),
            end.0 < old(self).n(),
        ensures
            final(self).wf(),
            final(self).extends(*old(self)),
            final(self).start == old(self).start,
            final(self).accept == old(self).accept,
            r is Ok <==> spec_ast_supported(*ast),
            r is Ok ==> spec_fragment(*final(self), *ast, start.0 as int, end.0 as int),
            r is Ok ==> spec_nfa_model(*final(self)) == spec_build(
                spec_nfa_model(*old(self)),
                *ast,
                start.0 as int,
                end.0 as int,
            ),
            (*ast is Empty || *ast is Flags || *ast is Assertion || *ast is ClassUnicode) ==> (r
                == Err::<(), Error>(Error::UnsupportedAstNodeType) && *final(self) == *old(self)),
            *ast matches RegexAst::Literal(c) ==> (r is Ok ==> spec_one_edge_added(
                *old(self),
                *final(self),
                start,
                end,
                spec_range_onehot(c as u32 as int, c as u32 as int),
            )),
            *ast is Dot ==> spec_one_edge_added(
                *old(self),
                *final(self),
                start,
                end,
                DOT_TRANSITION,
            ),
            *ast matches RegexAst::ClassPerl { negated, kind } ==> (r is Ok
                ==> spec_one_edge_added(
                *old(self),
                *final(self),
                start,
                end,
                spec_perl_onehot(kind),
            )),
            (*ast matches RegexAst::Repetition { greedy, kind, ast: inner } && !greedy) ==> (r
                == Err::<(), Error>(Error::NonGreedyRepetitionNotSupported) && *final(self)
                == *old(self)),
            r matches Err(e) ==> spec_compile_error(e),
        decreases ast, 0int,
    {
        match ast {
            RegexAst::Literal(literal) => self.add_literal(*literal, start, end),
            RegexAst::Dot => self.add_dot(start, end),
            RegexAst::ClassPerl { negated, kind } => self.add_perl(*negated, *kind, start, end),
            RegexAst::Repetition { greedy, kind, ast: inner } => {
                proof {
                    assert(decreases_to!(*ast => ast->Repetition_ast));
                }
                self.add_repetition(*greedy, kind, inner, start, end)
            },
            RegexAst::Concat(concat) => {
                proof {
                    assert(decreases_to!(*ast => ast->Concat_0));
                }
                self.add_concat(concat, start, end)
            },
            RegexAst::ClassBracketed(bracketed) => self.add_bracketed(bracketed, start, end),
            RegexAst::Alternation(alternation) => {
                proof {
                    assert(decreases_to!(*ast => ast->Alternation_0));
                }
                self.add_alternation(alternation, start, end)
            },
            RegexAst::Group { kind, ast: inner } => {
                proof {
                    assert(decreases_to!(*ast => ast->Group_ast));
                }
                self.add_group(kind, inner, start, end)
            },
            _ => Err(Error::UnsupportedAstNodeType),
        }
    }
}

/// The edge lists of an automaton, indexed by state: the construction's
/// exact model.
pub open spec fn spec_nfa_model(n: NFA) -> Seq<Seq<Transition>> {
    Seq::new(n.transitions@.len() as nat, |i: int| n.edges(i))
}

/// The model with one edge appended to `from`'s list, tagged `-1`.
pub open spec fn spec_model_edge(
    t: Seq<Seq<Transition>>,
    from: int,
    to: int,
    label: u128,
) -> Seq<Seq<Transition>> {
    t.update(
        from,
        t[from].push(
            Transition {
                from: State(from as usize),
                to: State(to as usize),
                symbol_onehot_encoding: label,
                tag: -1i16,
            },
        ),
    )
}

/// The model with one fresh state appended; its index is the old state count.
pub open spec fn spec_model_alloc(t: Seq<Seq<Transition>>) -> Seq<Seq<Transition>> {
    t.push(Seq::empty())
}

/// The exact result of compiling a supported pattern between two states:
/// every fresh state takes the next index in allocation order and every edge
/// is appended in construction order, so the builder's result is this value
/// and nothing else. Construction is thereby a function of its inputs.
pub open spec fn spec_build(t: Seq<Seq<Transition>>, ast: RegexAst, start: int, end: int) -> Seq<
    Seq<Transition>,
>
    decreases ast, 0int, 0int,
{
    match ast {
        RegexAst::Literal(c) => spec_model_edge(
            t,
            start,
            end,
            spec_range_onehot(c as u32 as int, c as u32 as int),
        ),
        RegexAst::Dot => spec_model_edge(t, start, end, DOT_TRANSITION),
        RegexAst::ClassPerl { negated, kind } => spec_model_edge(t, start, end, spec_perl_onehot(kind)),
        RegexAst::ClassBracketed(b) => spec_build_bracketed(t, *b, start, end),
        RegexAst::Group { kind, ast } => spec_build(t, *ast, start, end),
        RegexAst::Concat(children) => spec_build_list(t, children@, 0, start, end),
        RegexAst::Alternation(children) => spec_build_branches(t, children@, 0, start, end),
        RegexAst::Repetition { greedy, kind, ast } => spec_build_repetition(
            t,
            *ast,
            spec_repetition_range(kind),
            start,
            end,
        ),
        _ => t,
    }
}

/// The repetition layout: a fresh range-bound state, the mandatory copies or
/// an epsilon into it, the epsilon to `end`, and a loop or the optional tail.
pub open spec fn spec_build_repetition(
    t: Seq<Seq<Transition>>,
    inner: RegexAst,
    bounds: (u32, Option<u32>),
    start: int,
    end: int,
) -> Seq<Seq<Transition>>
    decreases inner, 1int, 0int,
{
    let (min, omax) = bounds;
    let r = t.len() as int;
    let t1 = spec_model_alloc(t);
    let t2 = if min == 0 {
        spec_model_edge(t1, start, r, 0u128)
    } else {
        spec_build_chain(t1, inner, start, r, min as int)
    };
    let t3 = spec_model_edge(t2, r, end, 0u128);
    match omax {
        Option::None => spec_build(t3, inner, r, r),
        Option::Some(max) => if max <= min {
            t3
        } else {
            spec_build_options(t3, inner, r, end, max - min)
        },
    }
}

/// `k >= 1` copies of `inner` chained from `cur` to `r` through fresh states.
pub open spec fn spec_build_chain(
    t: Seq<Seq<Transition>>,
    inner: RegexAst,
    cur: int,
    r: int,
    k: int,
) -> Seq<Seq<Transition>>
    decreases inner, 0int, k,
{
    if k <= 0 {
        t
    } else if k == 1 {
        spec_build(t, inner, cur, r)
    } else {
        let m = t.len() as int;
        spec_build_chain(spec_build(spec_model_alloc(t), inner, cur, m), inner, m, r, k - 1)
    }
}

/// `k >= 1` optional copies of `inner` hanging off `cur`, each fresh state
/// wired to `end` by an epsilon.
pub open spec fn spec_build_options(
    t: Seq<Seq<Transition>>,
    inner: RegexAst,
    cur: int,
    end: int,
    k: int,
) -> Seq<Seq<Transition>>
    decreases inner, 0int, k,
{
    if k <= 0 {
        t
    } else {
        let m = t.len() as int;
        spec_build_options(
            spec_model_edge(spec_build(spec_model_alloc(t), inner, cur, m), m, end, 0u128),
            inner,
            m,
            end,
            k - 1,
        )
    }
}

/// The children from index `i` on, chained from `cur` to `end`: each
/// non-final child gets a fresh intermediate state, the final one ends at
/// `end`.
pub open spec fn spec_build_list(
    t: Seq<Seq<Transition>>,
    children: Seq<RegexAst>,
    i: int,
    cur: int,
    end: int,
) -> Seq<Seq<Transition>>
    decreases children, children.len() - i, 0int,
{
    if i < 0 || i >= children.len() {
        t
    } else if i == children.len() - 1 {
        spec_build(t, children[i], cur, end)
    } else {
        let m = t.len() as int;
        spec_build_list(
            spec_build(spec_model_alloc(t), children[i], cur, m),
            children,
            i + 1,
            m,
            end,
        )
    }
}

/// The branches from index `i` on: each gets two fresh states, epsilon
/// framing, and its own fragment.
pub open spec fn spec_build_branches(
    t: Seq<Seq<Transition>>,
    children: Seq<RegexAst>,
    i: int,
    start: int,
    end: int,
) -> Seq<Seq<Transition>>
    decreases children, children.len() - i, 0int,
{
    if i < 0 || i >= children.len() {
        t
    } else {
        let bs = t.len() as int;
        let be = bs + 1;
        let t1 = spec_model_alloc(spec_model_alloc(t));
        let t2 = spec_model_edge(t1, start, bs, 0u128);
        let t3 = spec_model_edge(t2, be, end, 0u128);
        spec_build_branches(spec_build(t3, children[i], bs, be), children, i + 1, start, end)
    }
}

/// The exact result of compiling a bracket class.
pub open spec fn spec_build_bracketed(
    t: Seq<Seq<Transition>>,
    b: ClassBracketed,
    start: int,
    end: int,
) -> Seq<Seq<Transition>>
    decreases b, 0int, 0int,
{
    match b.kind {
        ClassSet::Item(item) => spec_build_item(t, item, start, end),
        ClassSet::BinaryOp => t,
    }
}

/// The exact result of compiling one class-set item.
pub open spec fn spec_build_item(
    t: Seq<Seq<Transition>>,
    item: ClassSetItem,
    start: int,
    end: int,
) -> Seq<Seq<Transition>>
    decreases item, 0int, 0int,
{
    match item {
        ClassSetItem::Literal(c) => spec_model_edge(
            t,
            start,
            end,
            spec_range_onehot(c as u32 as int, c as u32 as int),
        ),
        ClassSetItem::Range(a, b) => spec_model_edge(
            t,
            start,
            end,
            spec_range_onehot(a as u32 as int, b as u32 as int),
        ),
        ClassSetItem::Perl { negated, kind } => spec_model_edge(t, start, end, spec_perl_onehot(kind)),
        ClassSetItem::Bracketed(b) => spec_build_bracketed(t, *b, start, end),
        ClassSetItem::Union(items) => spec_build_items(t, items@, 0, start, end),
        _ => t,
    }
}

/// The class-set items from index `i` on, chained like a concatenation.
pub open spec fn spec_build_items(
    t: Seq<Seq<Transition>>,
    items: Seq<ClassSetItem>,
    i: int,
    cur: int,
    end: int,
) -> Seq<Seq<Transition>>
    decreases items, items.len() - i, 0int,
{
    if i < 0 || i >= items.len() {
        t
    } else if i == items.len() - 1 {
        spec_build_item(t, items[i], cur, end)
    } else {
        let m = t.len() as int;
        spec_build_items(
            spec_build_item(spec_model_alloc(t), items[i], cur, m),
            items,
            i + 1,
            m,
            end,
        )
    }
}

/// A fresh state is exactly one model allocation.
proof fn lemma_model_alloc(pre: NFA, post: NFA)
    requires
        pre.wf(),
        post.wf(),
        post.n() == pre.n() + 1,
        forall|i: int| 0 <= i < pre.n() ==> post.edges(i) == pre.edges(i),
        post.edges(pre.n()).len() == 0,
    ensures
        spec_nfa_model(post) == spec_model_alloc(spec_nfa_model(pre)),
{
    assert(spec_nfa_model(post) =~~= spec_model_alloc(spec_nfa_model(pre)));
}

/// One appended edge is exactly one model edge.
proof fn lemma_model_edge(pre: NFA, post: NFA, from: State, to: State, label: u128)
    requires
        pre.wf(),
        post.wf(),
        from.0 < pre.n(),
        post.n() == pre.n(),
        post.edges(from.0 as int) == pre.edges(from.0 as int).push(
            (Transition { from, to, symbol_onehot_encoding: label, tag: -1i16 }),
        ),
        forall|i: int| 0 <= i < pre.n() && i != from.0 as int ==> post.edges(i) == pre.edges(i),
    ensures
        spec_nfa_model(post) == spec_model_edge(
            spec_nfa_model(pre),
            from.0 as int,
            to.0 as int,
            label,
        ),
{
    assert(State((from.0 as int) as usize) == from);
    assert(State((to.0 as int) as usize) == to);
    assert(spec_nfa_model(post) =~~= spec_model_edge(
        spec_nfa_model(pre),
        from.0 as int,
        to.0 as int,
        label,
    ));
}

impl NFA {
    /// Extends the automaton with a Thompson fragment for `ast` between
    /// `start` and `end`. Succeeds exactly on the supported dialect; on
    /// success the result is exactly the construction's layout, and on any
    /// error the automaton is observably unchanged: no partial work is
    /// exposed.
    pub fn add_ast_to_nfa(&mut self, ast: &RegexAst, start: State, end: State) -> (r: Result<
        (),
        Error,
    >)
        requires
            old(self).wf(),
            start.0 < old(self).n(),
            end.0 < old(self).n(),
        ensures
            final(self).wf(),
            final(self).extends(*old(self)),
            final(self).start == old(self).start,
            final(self).accept == old(self).accept,
            r is Ok <==> spec_ast_supported(*ast),
            r is Ok ==> spec_fragment(*final(self), *ast, start.0 as int, end.0 as int),
            r is Ok ==> spec_nfa_model(*final(self)) == spec_build(
                spec_nfa_model(*old(self)),
                *ast,
                start.0 as int,
                end.0 as int,
            ),
            r matches Err(e) ==> spec_compile_error(e),
            r is Err ==> final(self).states@ == old(self).states@ && spec_nfa_model(*final(self))
                == spec_nfa_model(*old(self)),
    {
        let n0 = self.states.len();
        let mut edge_counts: Vec<usize> = Vec::new();
        let mut i: usize = 0;
        while i < n0
            invariant
                self.wf(),
                n0 == self.n(),
                0 <= i <= n0,
                edge_counts@.len() == i,
                forall|j: int| 0 <= j < i ==> edge_counts@[j] == self.edges(j).len(),
            decreases n0 - i,
        {
            edge_counts.push(self.transitions[i].len());
            i = i + 1;
        }
        let ghost snapshot = *self;
        match self.compile_node(ast, start, end) {
            Ok(()) => Ok(()),
            Err(e) => {
                self.states.truncate(n0);
                self.transitions.truncate(n0);
                proof {
                    assert(self.states@ =~= snapshot.states@);
                    assert(self.transitions@.len() == n0);
                }
                let mut j: usize = 0;
                while j < n0
                    invariant
                        snapshot.wf(),
                        n0 == snapshot.n(),
                        self.states@ == snapshot.states@,
                        self.transitions@.len() == n0,
                        0 <= j <= n0,
                        edge_counts@.len() == n0,
                        forall|m: int| 0 <= m < n0 ==> edge_counts@[m] == snapshot.edges(m).len(),
                        forall|m: int| 0 <= m < j ==> self.edges(m) == snapshot.edges(m),
                        forall|m: int|
                            j <= m < n0 ==> (#[trigger] snapshot.edges(m)).is_prefix_of(
                                self.edges(m),
                            ),
                        self.start == snapshot.start,
                        self.accept == snapshot.accept,
                    decreases n0 - j,
                {
                    let mut row: Vec<Transition> = self.transitions.remove(j);
                    row.truncate(edge_counts[j]);
                    proof {
                        assert(row@ =~= snapshot.edges(j as int));
                    }
                    let ghost pre_insert = self.transitions@;
                    self.transitions.insert(j, row);
                    proof {
                        assert forall|m: int| 0 <= m < j + 1 implies self.edges(m)
                            == snapshot.edges(m) by {
                            if m < j {
                                assert(self.transitions@[m] == snapshot.transitions@[m]
                                    || self.edges(m) == snapshot.edges(m));
                            }
                        }
                    }
                    j = j + 1;
                }
                proof {
                    assert(spec_nfa_model(*self) =~~= spec_nfa_model(snapshot));
                    assert(snapshot == *old(self));
                    assert(self.wf()) by {
                        assert forall|i2: int, j2: int|
                            0 <= i2 < self.n() && 0 <= j2 < self.edges(i2).len() implies {
                            &&& (#[trigger] self.edges(i2)[j2]).from.0 == i2
                            &&& self.edges(i2)[j2].to.0 < self.n()
                        } by {
                            assert(self.edges(i2) == snapshot.edges(i2));
                        }
                    }
                    assert(self.extends(*old(self))) by {
                        assert forall|i2: int|
                            0 <= i2 < old(self).transitions@.len() implies (#[trigger] old(
                            self,
                        ).edges(i2)).is_prefix_of(self.edges(i2)) by {
                            assert(self.edges(i2) == snapshot.edges(i2));
                        }
                        assert forall|i2: int, j2: int|
                            0 <= i2 < self.transitions@.len() && 0 <= j2 < self.edges(i2).len()
                                && (i2 >= old(self).transitions@.len() || j2 >= old(self).edges(
                                i2,
                            ).len()) implies (#[trigger] self.edges(i2)[j2]).tag == -1 by {
                            assert(self.edges(i2) == snapshot.edges(i2));
                        }
                    }
                }
                Err(e)
            },
        }
    }
}

} // verus!

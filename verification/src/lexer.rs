//! The streaming tokenizer: every configured pattern compiled into one fused
//! automaton, simulated by subset construction over the input bytes.
//!
//! A lexeme is a maximal run of non-delimiter bytes; a delimiter byte is a
//! token of its own. A lexeme accepted in full by some pattern becomes a
//! `Timestamp` or `Variable` token; timestamps outrank variables and
//! earlier-declared patterns outrank later ones. Anything else is static
//! text.

use vstd::prelude::*;

use crate::errors::Error;
use crate::nfa::NFA;
use crate::nfa::State;
use crate::nfa::contains_state;
use crate::schema::SchemaConfig;

verus! {

/// The classification of a token.
#[derive(Clone, Copy, Debug, Eq, PartialEq, Structural)]
pub enum TokenType {
    /// A lexeme fully matched by the timestamp pattern with this index.
    Timestamp(usize),
    /// A lexeme fully matched by the variable pattern with this index.
    Variable(usize),
    /// A lexeme no pattern matched in full.
    StaticText,
    /// A single delimiter byte other than newline.
    Whitespace,
    /// A single newline byte.
    Newline,
}

/// One token: its classification, its bytes, and the 1-based line number at
/// which it began.
#[derive(Debug)]
pub struct Token {
    pub token_type: TokenType,
    pub lexeme: Vec<u8>,
    pub line_num: usize,
}

impl Token {
    /// The token's classification.
    pub fn get_token_type(&self) -> (r: TokenType)
        ensures
            r == self.token_type,
    {
        self.token_type
    }

    /// The token's bytes.
    pub fn get_lexeme(&self) -> (r: &Vec<u8>)
        ensures
            r == &self.lexeme,
    {
        &self.lexeme
    }

    /// The 1-based line number at which the token began.
    pub fn get_line_num(&self) -> (r: usize)
        ensures
            r == self.line_num,
    {
        self.line_num
    }
}

/// The bytes of a token sequence, concatenated in order.
pub open spec fn spec_lexemes(toks: Seq<Token>) -> Seq<u8>
    decreases toks.len(),
{
    if toks.len() == 0 {
        Seq::empty()
    } else {
        spec_lexemes(toks.drop_last()) + toks.last().lexeme@
    }
}

/// How many tokens of the sequence are newline tokens.
pub open spec fn spec_newline_count(toks: Seq<Token>) -> int
    decreases toks.len(),
{
    if toks.len() == 0 {
        0int
    } else {
        spec_newline_count(toks.drop_last()) + if toks.last().token_type is Newline {
            1int
        } else {
            0int
        }
    }
}

/// How many entries of the byte sequence equal `b`.
pub open spec fn spec_byte_count(s: Seq<u8>, b: u8) -> int
    decreases s.len(),
{
    if s.len() == 0 {
        0int
    } else {
        spec_byte_count(s.drop_last(), b) + if s.last() == b {
            1int
        } else {
            0int
        }
    }
}

/// Counting bytes distributes over concatenation.
pub proof fn lemma_byte_count_concat(a: Seq<u8>, b: Seq<u8>, x: u8)
    ensures
        spec_byte_count(a + b, x) == spec_byte_count(a, x) + spec_byte_count(b, x),
    decreases b.len(),
{
    if b.len() == 0 {
        assert(a + b =~= a);
    } else {
        lemma_byte_count_concat(a, b.drop_last(), x);
        assert((a + b).drop_last() =~= a + b.drop_last());
        assert((a + b).last() == b.last());
    }
}

/// A sequence without `x` counts zero of it.
pub proof fn lemma_byte_count_absent(s: Seq<u8>, x: u8)
    requires
        forall|j: int| 0 <= j < s.len() ==> s[j] != x,
    ensures
        spec_byte_count(s, x) == 0,
    decreases s.len(),
{
    if s.len() > 0 {
        lemma_byte_count_absent(s.drop_last(), x);
    }
}

/// A pattern is wired into the fused automaton: an epsilon edge leads from
/// the super-start into a fresh start state, and a fragment for the pattern
/// spans from there to its recorded accept state.
pub open spec fn spec_pattern_wired(n: NFA, ast: crate::ast::RegexAst, accept: int) -> bool {
    exists|s: int|
        {
            &&& #[trigger] crate::compile::spec_state_in(n, s)
            &&& n.has_edge(0, s, 0u128)
            &&& crate::compile::spec_fragment(n, ast, s, accept)
        }
}

/// `to` is reachable from `from` along epsilon edges alone.
pub open spec fn spec_eps_connected(n: NFA, from: int, to: int) -> bool {
    exists|p: Seq<int>|
        {
            &&& #[trigger] crate::nfa::spec_eps_path(n, p)
            &&& p[0] == from
            &&& p.last() == to
        }
}

/// One consuming move: an edge from `m1` to `m2` whose label matches `b`.
pub open spec fn spec_last_step(n: NFA, m1: int, b: u8, m2: int) -> bool {
    &&& 0 <= m1 < n.n()
    &&& 0 <= m2 < n.n()
    &&& exists|k: int|
        0 <= k < n.edges(m1).len() && {
            &&& (#[trigger] n.edges(m1)[k]).to.0 == m2
            &&& n.edges(m1)[k].symbol_onehot_encoding & (1u128 << (b as u128)) != 0
        }
}

/// The automaton consumes `input` from `from` and rests at `to`: an epsilon
/// walk, then one matching edge per byte with epsilon walks in between.
pub open spec fn spec_runs_to(n: NFA, from: int, input: Seq<u8>, to: int) -> bool
    decreases input.len(),
{
    if input.len() == 0 {
        spec_eps_connected(n, from, to)
    } else {
        exists|m1: int, m2: int|
            {
                &&& #[trigger] spec_last_step(n, m1, input.last(), m2)
                &&& spec_runs_to(n, from, input.drop_last(), m1)
                &&& spec_eps_connected(n, m2, to)
            }
    }
}

/// Pattern `p` accepts `lexeme`: the fused automaton runs from the
/// super-start to the pattern's recorded accept state over it.
pub open spec fn spec_pattern_accepts(lx: Lexer, p: int, lexeme: Seq<u8>) -> bool {
    spec_runs_to(lx.nfa, 0, lexeme, lx.pattern_accepts@[p].0 as int)
}

/// `t` is one consuming move plus an epsilon walk away from the active set.
pub open spec fn spec_step_target(n: NFA, active: Seq<State>, b: u8, t: State) -> bool {
    exists|s: State, m: int|
        {
            &&& active.contains(s)
            &&& #[trigger] spec_last_step(n, s.0 as int, b, m)
            &&& spec_eps_connected(n, m, t.0 as int)
        }
}

/// The tokenizer: a fused automaton over all configured patterns, the
/// delimiter table, and a byte input with a cursor and a line counter.
pub struct Lexer {
    pub nfa: NFA,
    pub pattern_accepts: Vec<State>,
    pub num_ts: usize,
    pub delimiters: Vec<bool>,
    pub input: Vec<u8>,
    pub pos: usize,
    pub line: usize,
}

impl Lexer {
    /// Structural soundness: a well-formed automaton, pattern accept states
    /// inside it, a full delimiter table holding newline, the cursor inside
    /// the input, and a line counter that started at one and grew by at most
    /// one per consumed byte.
    pub open spec fn wf(self) -> bool {
        &&& self.nfa.wf()
        &&& self.delimiters@.len() == 128
        &&& self.delimiters@[10]
        &&& self.pos <= self.input@.len()
        &&& self.input@.len() < usize::MAX
        &&& 1 <= self.line
        &&& self.line <= self.pos + 1
        &&& forall|i: int|
            0 <= i < self.pattern_accepts@.len() ==> (#[trigger] self.pattern_accepts@[i]).0
                < self.nfa.n()
        &&& self.num_ts <= self.pattern_accepts@.len()
    }

    /// The lexer's configuration, untouched by tokenization.
    pub open spec fn same_config(self, other: Lexer) -> bool {
        &&& self.nfa == other.nfa
        &&& self.pattern_accepts == other.pattern_accepts
        &&& self.num_ts == other.num_ts
        &&& self.delimiters == other.delimiters
        &&& self.input == other.input
    }

    /// Builds the fused automaton: a fresh start/accept pair per pattern,
    /// epsilon edges from the super-start into each pattern's start, and the
    /// pattern's accept state recorded under its identity. Timestamp patterns
    /// come first, then variables in declaration order. Fails exactly when
    /// some pattern uses an unsupported construct.
    pub fn new(schema_config: &SchemaConfig) -> (r: Result<Lexer, Error>)
        requires
            schema_config.wf(),
        ensures
            r is Ok <==> ((forall|i: int|
                0 <= i < schema_config.spec_ts_schemas().len()
                    ==> crate::compile::spec_ast_supported(
                    (#[trigger] schema_config.spec_ts_schemas()[i]).ast,
                )) && (forall|i: int|
                0 <= i < schema_config.spec_var_schemas().len()
                    ==> crate::compile::spec_ast_supported(
                    (#[trigger] schema_config.spec_var_schemas()[i]).ast,
                ))),
            r matches Ok(lx) ==> {
                &&& lx.wf()
                &&& lx.pos == 0
                &&& lx.line == 1
                &&& lx.input@.len() == 0
                &&& lx.num_ts == schema_config.spec_ts_schemas().len()
                &&& lx.pattern_accepts@.len() == schema_config.spec_ts_schemas().len()
                    + schema_config.spec_var_schemas().len()
                &&& lx.delimiters@ == schema_config.delimiters@
                &&& forall|i: int|
                    0 <= i < schema_config.spec_ts_schemas().len() ==> spec_pattern_wired(
                        lx.nfa,
                        (#[trigger] schema_config.spec_ts_schemas()[i]).ast,
                        lx.pattern_accepts@[i].0 as int,
                    )
                &&& forall|i: int|
                    0 <= i < schema_config.spec_var_schemas().len() ==> spec_pattern_wired(
                        lx.nfa,
                        (#[trigger] schema_config.spec_var_schemas()[i]).ast,
                        lx.pattern_accepts@[schema_config.spec_ts_schemas().len() + i].0 as int,
                    )
            },
    {
        let mut nfa = NFA::new();
        let mut pattern_accepts: Vec<State> = Vec::new();
        let ts = schema_config.get_ts_schemas();
        let vars = schema_config.get_var_schemas();
        let num_ts = ts.len();

        let mut i: usize = 0;
        while i < ts.len()
            invariant
                schema_config.wf(),
                nfa.wf(),
                0 <= i <= ts@.len(),
                ts@ == schema_config.ts_schemas@,
                pattern_accepts@.len() == i,
                forall|k: int| 0 <= k < i ==> (#[trigger] pattern_accepts@[k]).0 < nfa.n(),
                forall|k: int|
                    0 <= k < i ==> crate::compile::spec_ast_supported((#[trigger] ts@[k]).ast),
                forall|k: int|
                    0 <= k < i ==> spec_pattern_wired(
                        nfa,
                        (#[trigger] ts@[k]).ast,
                        pattern_accepts@[k].0 as int,
                    ),
            decreases ts@.len() - i,
        {
            let ghost pre_iter = nfa;
            let pat_start = nfa.new_state();
            let pat_accept = nfa.new_state();
            nfa.add_epsilon_transition(NFA::start_state(), pat_start);
            let ghost pre_rec = nfa;
            match nfa.add_ast_to_nfa(ts[i].get_ast(), pat_start, pat_accept) {
                Ok(()) => {},
                Err(e) => {
                    return Err(e);
                },
            }
            proof {
                nfa.lemma_extends_trans(pre_rec, pre_iter);
                nfa.lemma_extends_has_edge(pre_rec, 0, pat_start.0 as int, 0u128);
                assert(crate::compile::spec_state_in(nfa, pat_start.0 as int));
                assert(spec_pattern_wired(nfa, ts@[i as int].ast, pat_accept.0 as int));
                assert forall|k: int| 0 <= k < i implies spec_pattern_wired(
                    nfa,
                    (#[trigger] ts@[k]).ast,
                    pattern_accepts@[k].0 as int,
                ) by {
                    let s0 = choose|s0: int|
                        {
                            &&& #[trigger] crate::compile::spec_state_in(pre_iter, s0)
                            &&& pre_iter.has_edge(0, s0, 0u128)
                            &&& crate::compile::spec_fragment(
                                pre_iter,
                                ts@[k].ast,
                                s0,
                                pattern_accepts@[k].0 as int,
                            )
                        };
                    nfa.lemma_extends_has_edge(pre_iter, 0, s0, 0u128);
                    crate::compile::lemma_fragment_mono(
                        pre_iter,
                        nfa,
                        ts@[k].ast,
                        s0,
                        pattern_accepts@[k].0 as int,
                    );
                    assert(crate::compile::spec_state_in(nfa, s0));
                }
            }
            pattern_accepts.push(pat_accept);
            i = i + 1;
        }
        let mut j: usize = 0;
        while j < vars.len()
            invariant
                schema_config.wf(),
                nfa.wf(),
                0 <= j <= vars@.len(),
                ts@ == schema_config.ts_schemas@,
                vars@ == schema_config.var_schemas@,
                num_ts == ts@.len(),
                pattern_accepts@.len() == num_ts + j,
                forall|k: int| 0 <= k < num_ts + j ==> (#[trigger] pattern_accepts@[k]).0
                    < nfa.n(),
                forall|k: int|
                    0 <= k < num_ts ==> crate::compile::spec_ast_supported(
                        (#[trigger] ts@[k]).ast,
                    ),
                forall|k: int|
                    0 <= k < j ==> crate::compile::spec_ast_supported((#[trigger] vars@[k]).ast),
                forall|k: int|
                    0 <= k < num_ts ==> spec_pattern_wired(
                        nfa,
                        (#[trigger] ts@[k]).ast,
                        pattern_accepts@[k].0 as int,
                    ),
                forall|k: int|
                    0 <= k < j ==> spec_pattern_wired(
                        nfa,
                        (#[trigger] vars@[k]).ast,
                        pattern_accepts@[num_ts + k].0 as int,
                    ),
            decreases vars@.len() - j,
        {
            let ghost pre_iter = nfa;
            let pat_start = nfa.new_state();
            let pat_accept = nfa.new_state();
            nfa.add_epsilon_transition(NFA::start_state(), pat_start);
            let ghost pre_rec = nfa;
            match nfa.add_ast_to_nfa(vars[j].get_ast(), pat_start, pat_accept) {
                Ok(()) => {},
                Err(e) => {
                    return Err(e);
                },
            }
            proof {
                nfa.lemma_extends_trans(pre_rec, pre_iter);
                nfa.lemma_extends_has_edge(pre_rec, 0, pat_start.0 as int, 0u128);
                assert(crate::compile::spec_state_in(nfa, pat_start.0 as int));
                assert(spec_pattern_wired(nfa, vars@[j as int].ast, pat_accept.0 as int));
                assert forall|k: int| 0 <= k < num_ts implies spec_pattern_wired(
                    nfa,
                    (#[trigger] ts@[k]).ast,
                    pattern_accepts@[k].0 as int,
                ) by {
                    let s0 = choose|s0: int|
                        {
                            &&& #[trigger] crate::compile::spec_state_in(pre_iter, s0)
                            &&& pre_iter.has_edge(0, s0, 0u128)
                            &&& crate::compile::spec_fragment(
                                pre_iter,
                                ts@[k].ast,
                                s0,
                                pattern_accepts@[k].0 as int,
                            )
                        };
                    nfa.lemma_extends_has_edge(pre_iter, 0, s0, 0u128);
                    crate::compile::lemma_fragment_mono(
                        pre_iter,
                        nfa,
                        ts@[k].ast,
                        s0,
                        pattern_accepts@[k].0 as int,
                    );
                    assert(crate::compile::spec_state_in(nfa, s0));
                }
                assert forall|k: int| 0 <= k < j implies spec_pattern_wired(
                    nfa,
                    (#[trigger] vars@[k]).ast,
                    pattern_accepts@[num_ts + k].0 as int,
                ) by {
                    let s0 = choose|s0: int|
                        {
                            &&& #[trigger] crate::compile::spec_state_in(pre_iter, s0)
                            &&& pre_iter.has_edge(0, s0, 0u128)
                            &&& crate::compile::spec_fragment(
                                pre_iter,
                                vars@[k].ast,
                                s0,
                                pattern_accepts@[num_ts + k].0 as int,
                            )
                        };
                    nfa.lemma_extends_has_edge(pre_iter, 0, s0, 0u128);
                    crate::compile::lemma_fragment_mono(
                        pre_iter,
                        nfa,
                        vars@[k].ast,
                        s0,
                        pattern_accepts@[num_ts + k].0 as int,
                    );
                    assert(crate::compile::spec_state_in(nfa, s0));
                }
            }
            pattern_accepts.push(pat_accept);
            j = j + 1;
        }
        let mut delimiters: Vec<bool> = Vec::new();
        let mut k: usize = 0;
        while k < 128
            invariant
                schema_config.wf(),
                0 <= k <= 128,
                delimiters@.len() == k,
                forall|m: int| 0 <= m < k ==> delimiters@[m] == schema_config.delimiters@[m],
            decreases 128 - k,
        {
            delimiters.push(schema_config.delimiters[k]);
            k = k + 1;
        }
        proof {
            assert(delimiters@ =~= schema_config.delimiters@);
        }
        Ok(
            Lexer {
                nfa,
                pattern_accepts,
                num_ts,
                delimiters,
                input: Vec::new(),
                pos: 0,
                line: 1,
            },
        )
    }

    /// Attaches a byte input, resetting the cursor and the line counter.
    pub fn set_input_stream(&mut self, input: Vec<u8>)
        requires
            old(self).wf(),
            input@.len() < usize::MAX,
        ensures
            final(self).wf(),
            final(self).input@ == input@,
            final(self).pos == 0,
            final(self).line == 1,
            final(self).nfa == old(self).nfa,
            final(self).pattern_accepts == old(self).pattern_accepts,
            final(self).num_ts == old(self).num_ts,
            final(self).delimiters == old(self).delimiters,
    {
        self.input = input;
        self.pos = 0;
        self.line = 1;
    }

    /// One subset-construction step: the epsilon closure of every state an
    /// edge matching `b` leads to from the active set. The result holds
    /// exactly the states one consuming move plus an epsilon walk away.
    #[verifier::rlimit(100)]
    #[verifier::spinoff_prover]
    fn advance(&self, active: &Vec<State>, b: u8) -> (r: Vec<State>)
        requires
            self.wf(),
            b < 128,
            forall|i: int| 0 <= i < active@.len() ==> (#[trigger] active@[i]).0 < self.nfa.n(),
        ensures
            forall|i: int| 0 <= i < r@.len() ==> (#[trigger] r@[i]).0 < self.nfa.n(),
            r@.no_duplicates(),
            forall|t: State| r@.contains(t) ==> spec_step_target(self.nfa, active@, b, t),
            forall|t: State| spec_step_target(self.nfa, active@, b, t) ==> r@.contains(t),
    {
        let nn = self.nfa.states.len();
        let mut next: Vec<State> = Vec::new();
        let mut i: usize = 0;
        while i < active.len()
            invariant
                self.wf(),
                nn == self.nfa.n(),
                0 <= i <= active@.len(),
                forall|k: int| 0 <= k < active@.len() ==> (#[trigger] active@[k]).0 < self.nfa.n(),
                forall|k: int| 0 <= k < next@.len() ==> (#[trigger] next@[k]).0 < self.nfa.n(),
                next@.no_duplicates(),
                b < 128,
                forall|t: State|
                    next@.contains(t) ==> exists|s: State|
                        active@.contains(s) && #[trigger] spec_last_step(
                            self.nfa,
                            s.0 as int,
                            b,
                            t.0 as int,
                        ),
                forall|ii: int, kk: int|
                    0 <= ii < i && 0 <= kk < self.nfa.edges(active@[ii].0 as int).len() && (
                    #[trigger] self.nfa.edges(active@[ii].0 as int)[kk]).symbol_onehot_encoding & (
                    1u128 << (b as u128)) != 0 ==> next@.contains(
                        self.nfa.edges(active@[ii].0 as int)[kk].to,
                    ),
            decreases active@.len() - i,
        {
            let s = active[i];
            let edges = &self.nfa.transitions[s.0];
            let mut k: usize = 0;
            while k < edges.len()
                invariant
                    self.wf(),
                    nn == self.nfa.n(),
                    s == active@[i as int],
                    i < active@.len(),
                    s.0 < self.nfa.n(),
                    edges@ == self.nfa.edges(s.0 as int),
                    0 <= k <= edges@.len(),
                    forall|m: int| 0 <= m < active@.len() ==> (#[trigger] active@[m]).0
                        < self.nfa.n(),
                    forall|m: int| 0 <= m < next@.len() ==> (#[trigger] next@[m]).0
                        < self.nfa.n(),
                    next@.no_duplicates(),
                    b < 128,
                    forall|t: State|
                        next@.contains(t) ==> exists|s2: State|
                            active@.contains(s2) && #[trigger] spec_last_step(
                                self.nfa,
                                s2.0 as int,
                                b,
                                t.0 as int,
                            ),
                    forall|ii: int, kk: int|
                        0 <= ii < i && 0 <= kk < self.nfa.edges(active@[ii].0 as int).len() && (
                        #[trigger] self.nfa.edges(active@[ii].0 as int)[kk]).symbol_onehot_encoding
                            & (1u128 << (b as u128)) != 0 ==> next@.contains(
                            self.nfa.edges(active@[ii].0 as int)[kk].to,
                        ),
                    forall|kk: int|
                        0 <= kk < k && (#[trigger] self.nfa.edges(
                            s.0 as int,
                        )[kk]).symbol_onehot_encoding & (1u128 << (b as u128)) != 0
                            ==> next@.contains(self.nfa.edges(s.0 as int)[kk].to),
                decreases edges@.len() - k,
            {
                let t = edges[k];
                if t.symbol_onehot_encoding & (1u128 << (b as u128)) != 0 {
                    proof {
                        assert(active@.contains(s)) by {
                            assert(active@[i as int] == s);
                        }
                        assert(spec_last_step(self.nfa, s.0 as int, b, t.to.0 as int)) by {
                            assert((self.nfa.edges(s.0 as int)[k as int]).to.0 == t.to.0);
                        }
                    }
                    if !contains_state(&next, t.to) {
                        proof {
                            crate::nfa::lemma_push_keeps_members(next@, t.to);
                            let ghost before = next@;
                            assert forall|t2: State| before.push(t.to).contains(t2) implies exists|
                                s2: State,
                            |
                                active@.contains(s2) && #[trigger] spec_last_step(
                                    self.nfa,
                                    s2.0 as int,
                                    b,
                                    t2.0 as int,
                                ) by {
                                if t2 != t.to {
                                    let w = choose|w: int|
                                        0 <= w < before.push(t.to).len() && before.push(t.to)[w]
                                            == t2;
                                    assert(before[w] == t2);
                                    assert(before.contains(t2));
                                }
                            }
                        }
                        next.push(t.to);
                    }
                }
                k = k + 1;
            }
            i = i + 1;
        }
        let r = self.nfa.epsilon_closure(&next);
        proof {
            assert forall|t: State| r@.contains(t) implies spec_step_target(
                self.nfa,
                active@,
                b,
                t,
            ) by {
                let idx = choose|idx: int| 0 <= idx < r@.len() && r@[idx] == t;
                assert(crate::nfa::spec_eps_reachable(self.nfa, next@, t));
                let p = choose|p: Seq<int>|
                    {
                        &&& #[trigger] crate::nfa::spec_eps_path(self.nfa, p)
                        &&& 0 <= p[0] < self.nfa.n() && next@.contains(State(p[0] as usize))
                        &&& p.last() == t.0 as int
                    };
                let seed = State(p[0] as usize);
                let s = choose|s: State|
                    active@.contains(s) && #[trigger] spec_last_step(
                        self.nfa,
                        s.0 as int,
                        b,
                        seed.0 as int,
                    );
                assert(seed.0 as int == p[0]);
                assert(spec_eps_connected(self.nfa, seed.0 as int, t.0 as int));
                assert(spec_last_step(self.nfa, s.0 as int, b, seed.0 as int));
            }
            assert forall|t: State| spec_step_target(self.nfa, active@, b, t) implies r@.contains(
                t,
            ) by {
                let (s, m) = choose|s: State, m: int|
                    {
                        &&& active@.contains(s)
                        &&& #[trigger] spec_last_step(self.nfa, s.0 as int, b, m)
                        &&& spec_eps_connected(self.nfa, m, t.0 as int)
                    };
                let ii = choose|ii: int| 0 <= ii < active@.len() && active@[ii] == s;
                let k = choose|k: int|
                    0 <= k < self.nfa.edges(s.0 as int).len() && {
                        &&& (#[trigger] self.nfa.edges(s.0 as int)[k]).to.0 == m
                        &&& self.nfa.edges(s.0 as int)[k].symbol_onehot_encoding & (1u128 << (
                        b as u128)) != 0
                    };
                assert(next@.contains(self.nfa.edges(active@[ii].0 as int)[k].to));
                assert(self.nfa.edges(s.0 as int)[k].to == State(m as usize));
                let p = choose|p: Seq<int>|
                    {
                        &&& #[trigger] crate::nfa::spec_eps_path(self.nfa, p)
                        &&& p[0] == m
                        &&& p.last() == t.0 as int
                    };
                assert(r@.contains(State(p[0] as usize)));
                crate::nfa::lemma_closed_covers_eps_paths(self.nfa, r@, p);
                assert(State(p.last() as usize) == t);
            }
        }
        r
    }
}

impl Lexer {
    /// Produces the next token, or `None` at end of input.
    ///
    /// Every produced token has at least one byte, carries exactly the input
    /// bytes between the old and the new cursor, holds ASCII bytes only, and
    /// is stamped with the line number at its first byte. The newline tokens
    /// are exactly those whose byte is the newline byte, and each advances
    /// the line counter by one. A non-delimiter lexeme is classified by
    /// acceptance of the whole lexeme: the token names the first pattern in
    /// priority order whose accept state the fused automaton can reach over
    /// it, and is static text exactly when no pattern accepts. A call at end
    /// of input returns `None` and changes nothing; a non-ASCII byte is the
    /// one failure.
    #[verifier::loop_isolation(false)]
    #[verifier::rlimit(100)]
    pub fn get_next_token(&mut self) -> (r: Result<Option<Token>, Error>)
        requires
            old(self).wf(),
        ensures
            final(self).wf(),
            final(self).same_config(*old(self)),
            final(self).pos >= old(self).pos,
            final(self).line >= old(self).line,
            r matches Ok(o) ==> (o is None <==> old(self).pos == old(self).input@.len()),
            old(self).pos == old(self).input@.len() ==> *final(self) == *old(self),
            r matches Ok(Some(tok)) ==> {
                &&& tok.lexeme@.len() >= 1
                &&& final(self).pos == old(self).pos + tok.lexeme@.len()
                &&& tok.lexeme@ == old(self).input@.subrange(
                    old(self).pos as int,
                    final(self).pos as int,
                )
                &&& forall|j: int| 0 <= j < tok.lexeme@.len() ==> tok.lexeme@[j] < 128
                &&& tok.line_num == old(self).line
                &&& (tok.token_type is Newline <==> tok.lexeme@ == seq![10u8])
                &&& (!(tok.token_type is Newline) ==> forall|j: int|
                    0 <= j < tok.lexeme@.len() ==> tok.lexeme@[j] != 10)
                &&& final(self).line == old(self).line + (
                if tok.token_type is Newline {
                    1int
                } else {
                    0int
                })
                &&& (tok.token_type is Whitespace <==> (old(self).delimiters@[tok.lexeme@[0] as int]
                    && tok.lexeme@[0] != 10))
                &&& (tok.token_type is Whitespace ==> tok.lexeme@.len() == 1)
                &&& ((tok.token_type is Timestamp || tok.token_type is Variable
                    || tok.token_type is StaticText) ==> forall|j: int|
                    0 <= j < tok.lexeme@.len() ==> !old(self).delimiters@[
                        #[trigger] tok.lexeme@[j] as int
                    ])
                &&& (tok.token_type matches TokenType::Timestamp(p) ==> p < old(self).num_ts)
                &&& (tok.token_type matches TokenType::Variable(p) ==> old(self).num_ts + p < old(
                    self,
                ).pattern_accepts@.len())
                &&& (tok.token_type matches TokenType::Timestamp(p) ==> spec_pattern_accepts(
                    *old(self),
                    p as int,
                    tok.lexeme@,
                ) && (forall|q: int|
                    0 <= q < p ==> !spec_pattern_accepts(*old(self), q, tok.lexeme@)))
                &&& (tok.token_type matches TokenType::Variable(v) ==> spec_pattern_accepts(
                    *old(self),
                    old(self).num_ts + v,
                    tok.lexeme@,
                ) && (forall|q: int|
                    0 <= q < old(self).num_ts + v ==> !spec_pattern_accepts(
                        *old(self),
                        q,
                        tok.lexeme@,
                    )))
                &&& (tok.token_type is StaticText ==> forall|q: int|
                    0 <= q < old(self).pattern_accepts@.len() ==> !spec_pattern_accepts(
                        *old(self),
                        q,
                        tok.lexeme@,
                    ))
            },
            (forall|j: int|
                old(self).pos <= j < old(self).input@.len() ==> old(self).input@[j] < 128) ==> r
                is Ok,
            r is Err ==> (exists|j: int|
                old(self).pos <= j < old(self).input@.len() && old(self).input@[j] >= 128),
            r matches Err(e) ==> e == Error::NoneASCIICharacters,
    {
        if self.pos == self.input.len() {
            return Ok(None);
        }
        let line0 = self.line;
        let ghost start_pos = self.pos as int;
        let c = self.input[self.pos];
        if c >= 128 {
            return Err(Error::NoneASCIICharacters);
        }
        if self.delimiters[c as usize] {
            self.pos = self.pos + 1;
            let mut lexeme: Vec<u8> = Vec::new();
            lexeme.push(c);
            proof {
                assert(lexeme@ =~= old(self).input@.subrange(start_pos, self.pos as int));
            }
            if c == 10 {
                self.line = self.line + 1;
                proof {
                    assert(lexeme@ =~= seq![10u8]);
                }
                return Ok(Some(Token { token_type: TokenType::Newline, lexeme, line_num: line0 }));
            }
            proof {
                assert(lexeme@ != seq![10u8]) by {
                    assert(lexeme@[0] != 10);
                }
            }
            return Ok(Some(Token { token_type: TokenType::Whitespace, lexeme, line_num: line0 }));
        }
        let mut lexeme: Vec<u8> = Vec::new();
        lexeme.push(c);
        self.pos = self.pos + 1;
        let nstates = self.nfa.states.len();
        proof {
            assert(nstates == self.nfa.n());
        }
        let mut seed: Vec<State> = Vec::new();
        seed.push(NFA::start_state());
        let closed = self.nfa.epsilon_closure(&seed);
        proof {
            assert forall|t: State| closed@.contains(t) implies spec_eps_connected(
                self.nfa,
                0,
                t.0 as int,
            ) by {
                let idx = choose|idx: int| 0 <= idx < closed@.len() && closed@[idx] == t;
                assert(crate::nfa::spec_eps_reachable(self.nfa, seed@, t));
                let p = choose|p: Seq<int>|
                    {
                        &&& #[trigger] crate::nfa::spec_eps_path(self.nfa, p)
                        &&& 0 <= p[0] < self.nfa.n() && seed@.contains(State(p[0] as usize))
                        &&& p.last() == t.0 as int
                    };
                assert(seed@[0] == State(0usize));
                assert(State(p[0] as usize) == State(0usize));
                assert(p[0] == 0);
            }
            assert forall|t: State|
                t.0 < self.nfa.n() && spec_eps_connected(self.nfa, 0, t.0 as int) implies
                closed@.contains(t) by {
                let p = choose|p: Seq<int>|
                    {
                        &&& #[trigger] crate::nfa::spec_eps_path(self.nfa, p)
                        &&& p[0] == 0
                        &&& p.last() == t.0 as int
                    };
                assert(seed@.contains(State(0usize))) by {
                    assert(seed@[0] == State(0usize));
                }
                assert(closed@.contains(State(p[0] as usize)));
                crate::nfa::lemma_closed_covers_eps_paths(self.nfa, closed@, p);
                assert(State(p.last() as usize) == t);
            }
        }
        let mut active = self.advance(&closed, c);
        proof {
            assert forall|t: State| active@.contains(t) implies spec_runs_to(
                self.nfa,
                0,
                lexeme@,
                t.0 as int,
            ) by {
                let (s, m) = choose|s: State, m: int|
                    {
                        &&& closed@.contains(s)
                        &&& #[trigger] spec_last_step(self.nfa, s.0 as int, c, m)
                        &&& spec_eps_connected(self.nfa, m, t.0 as int)
                    };
                assert(lexeme@.last() == c);
                assert(lexeme@.drop_last() =~= Seq::<u8>::empty());
                assert(spec_runs_to(self.nfa, 0, lexeme@.drop_last(), s.0 as int));
            }
            assert forall|t: State|
                t.0 < self.nfa.n() && spec_runs_to(self.nfa, 0, lexeme@, t.0 as int) implies
                active@.contains(t) by {
                assert(lexeme@.last() == c);
                let (m1, m2) = choose|m1: int, m2: int|
                    {
                        &&& #[trigger] spec_last_step(self.nfa, m1, c, m2)
                        &&& spec_runs_to(self.nfa, 0, lexeme@.drop_last(), m1)
                        &&& spec_eps_connected(self.nfa, m2, t.0 as int)
                    };
                assert(lexeme@.drop_last() =~= Seq::<u8>::empty());
                assert(spec_eps_connected(self.nfa, 0, m1));
                assert(closed@.contains(State(m1 as usize)));
                assert(State(m1 as usize).0 as int == m1);
                assert(spec_step_target(self.nfa, closed@, c, t));
            }
        }
        while self.pos < self.input.len()
            invariant
                self.wf(),
                self.same_config(*old(self)),
                self.line == line0,
                self.pos > start_pos,
                self.pos <= self.input@.len(),
                lexeme@.len() == self.pos - start_pos,
                lexeme@ == old(self).input@.subrange(start_pos, self.pos as int),
                forall|j: int| 0 <= j < lexeme@.len() ==> #[trigger] lexeme@[j] < 128,
                forall|j: int| 0 <= j < lexeme@.len() ==> #[trigger] lexeme@[j] != 10,
                forall|j: int|
                    0 <= j < lexeme@.len() ==> !self.delimiters@[#[trigger] lexeme@[j] as int],
                forall|i: int| 0 <= i < active@.len() ==> (#[trigger] active@[i]).0 < self.nfa.n(),
                active@.no_duplicates(),
                forall|t: State| #[trigger] active@.contains(t) ==> spec_runs_to(
                    self.nfa,
                    0,
                    lexeme@,
                    t.0 as int,
                ),
                forall|t: State|
                    t.0 < self.nfa.n() && #[trigger] spec_runs_to(
                        self.nfa,
                        0,
                        lexeme@,
                        t.0 as int,
                    ) ==> active@.contains(t),
            decreases self.input@.len() - self.pos,
        {
            let b = self.input[self.pos];
            if b >= 128 {
                return Err(Error::NoneASCIICharacters);
            }
            if self.delimiters[b as usize] {
                break;
            }
            proof {
                assert(b != 10);
            }
            let ghost lexeme_before = lexeme@;
            let ghost active_before = active@;
            lexeme.push(b);
            self.pos = self.pos + 1;
            proof {
                assert(lexeme@ =~= old(self).input@.subrange(start_pos, self.pos as int));
            }
            active = self.advance(&active, b);
            proof {
                assert(lexeme@.last() == b);
                assert(lexeme@.drop_last() =~= lexeme_before);
                assert forall|t: State| #[trigger] active@.contains(t) implies spec_runs_to(
                    self.nfa,
                    0,
                    lexeme@,
                    t.0 as int,
                ) by {
                    let (s, m) = choose|s: State, m: int|
                        {
                            &&& active_before.contains(s)
                            &&& #[trigger] spec_last_step(self.nfa, s.0 as int, b, m)
                            &&& spec_eps_connected(self.nfa, m, t.0 as int)
                        };
                    assert(spec_runs_to(self.nfa, 0, lexeme@.drop_last(), s.0 as int));
                }
                assert forall|t: State|
                    t.0 < self.nfa.n() && #[trigger] spec_runs_to(
                        self.nfa,
                        0,
                        lexeme@,
                        t.0 as int,
                    ) implies active@.contains(t) by {
                    let (m1, m2) = choose|m1: int, m2: int|
                        {
                            &&& #[trigger] spec_last_step(self.nfa, m1, b, m2)
                            &&& spec_runs_to(self.nfa, 0, lexeme@.drop_last(), m1)
                            &&& spec_eps_connected(self.nfa, m2, t.0 as int)
                        };
                    assert(active_before.contains(State(m1 as usize)));
                    assert(State(m1 as usize).0 as int == m1);
                    assert(spec_step_target(self.nfa, active_before, b, t));
                }
            }
        }
        let mut token_type = TokenType::StaticText;
        let mut pid: usize = 0;
        let ghost pre_classify = *self;
        while pid < self.pattern_accepts.len()
            invariant
                self.wf(),
                *self == pre_classify,
                0 <= pid <= self.pattern_accepts@.len(),
                forall|t: State| #[trigger] active@.contains(t) ==> spec_runs_to(
                    self.nfa,
                    0,
                    lexeme@,
                    t.0 as int,
                ),
                forall|t: State|
                    t.0 < self.nfa.n() && #[trigger] spec_runs_to(
                        self.nfa,
                        0,
                        lexeme@,
                        t.0 as int,
                    ) ==> active@.contains(t),
                forall|q: int|
                    0 <= q < pid ==> !spec_runs_to(
                        self.nfa,
                        0,
                        lexeme@,
                        (#[trigger] self.pattern_accepts@[q]).0 as int,
                    ),
                token_type is StaticText || (token_type matches TokenType::Timestamp(p) && p
                    < self.num_ts && spec_runs_to(
                    self.nfa,
                    0,
                    lexeme@,
                    self.pattern_accepts@[p as int].0 as int,
                ) && (forall|q: int|
                    0 <= q < p ==> !spec_runs_to(
                        self.nfa,
                        0,
                        lexeme@,
                        (#[trigger] self.pattern_accepts@[q]).0 as int,
                    ))) || (token_type matches TokenType::Variable(p) && self.num_ts + p
                    < self.pattern_accepts@.len() && spec_runs_to(
                    self.nfa,
                    0,
                    lexeme@,
                    self.pattern_accepts@[self.num_ts + p].0 as int,
                ) && (forall|q: int|
                    0 <= q < self.num_ts + p ==> !spec_runs_to(
                        self.nfa,
                        0,
                        lexeme@,
                        (#[trigger] self.pattern_accepts@[q]).0 as int,
                    ))),
                !(token_type is StaticText) ==> pid < self.pattern_accepts@.len(),
            decreases self.pattern_accepts@.len() - pid,
        {
            if contains_state(&active, self.pattern_accepts[pid]) {
                if pid < self.num_ts {
                    token_type = TokenType::Timestamp(pid);
                } else {
                    token_type = TokenType::Variable(pid - self.num_ts);
                }
                break;
            }
            pid = pid + 1;
        }
        proof {
            assert(lexeme@ != seq![10u8]) by {
                assert(lexeme@[0] != 10);
            }
        }
        Ok(Some(Token { token_type, lexeme, line_num: line0 }))
    }

    /// Tokenizes the rest of the input. On success the lexemes of the
    /// produced tokens, concatenated in order, are exactly the bytes read,
    /// and the newline tokens are exactly as many as the newline bytes among
    /// them. Fails only when a byte above ASCII remains.
    #[verifier::rlimit(100)]
    pub fn tokenize(&mut self) -> (r: Result<Vec<Token>, Error>)
        requires
            old(self).wf(),
        ensures
            final(self).wf(),
            final(self).same_config(*old(self)),
            r matches Ok(toks) ==> {
                &&& final(self).pos == old(self).input@.len()
                &&& spec_lexemes(toks@) == old(self).input@.subrange(
                    old(self).pos as int,
                    old(self).input@.len() as int,
                )
                &&& spec_newline_count(toks@) == spec_byte_count(
                    old(self).input@.subrange(old(self).pos as int, old(self).input@.len() as int),
                    10u8,
                )
                &&& forall|i: int| 0 <= i < toks@.len() ==> (#[trigger] toks@[i]).lexeme@.len() >= 1
                &&& forall|i: int, j: int|
                    0 <= i < toks@.len() && 0 <= j < toks@[i].lexeme@.len() ==> (
                    #[trigger] toks@[i].lexeme@[j]) < 128
            },
            (forall|j: int|
                old(self).pos <= j < old(self).input@.len() ==> old(self).input@[j] < 128) ==> r
                is Ok,
            r matches Err(e) ==> e == Error::NoneASCIICharacters,
    {
        let mut tokens: Vec<Token> = Vec::new();
        loop
            invariant
                self.wf(),
                self.same_config(*old(self)),
                self.pos >= old(self).pos,
                spec_lexemes(tokens@) == old(self).input@.subrange(
                    old(self).pos as int,
                    self.pos as int,
                ),
                spec_newline_count(tokens@) == spec_byte_count(
                    old(self).input@.subrange(old(self).pos as int, self.pos as int),
                    10u8,
                ),
                forall|i: int| 0 <= i < tokens@.len() ==> (#[trigger] tokens@[i]).lexeme@.len()
                    >= 1,
                forall|i: int, j: int|
                    0 <= i < tokens@.len() && 0 <= j < tokens@[i].lexeme@.len() ==> (
                    #[trigger] tokens@[i].lexeme@[j]) < 128,
            ensures
                self.pos == self.input@.len(),
            decreases self.input@.len() - self.pos,
        {
            let ghost pos_before = self.pos as int;
            let ghost toks_before = tokens@;
            let tok = match self.get_next_token() {
                Ok(Option::Some(tok)) => tok,
                Ok(Option::None) => {
                    break;
                },
                Err(e) => {
                    return Err(e);
                },
            };
            proof {
                let consumed = old(self).input@.subrange(pos_before, self.pos as int);
                let prev = old(self).input@.subrange(old(self).pos as int, pos_before);
                let all = old(self).input@.subrange(old(self).pos as int, self.pos as int);
                assert(all =~= prev + tok.lexeme@);
                lemma_byte_count_concat(prev, tok.lexeme@, 10u8);
                if tok.token_type is Newline {
                    assert(spec_byte_count(tok.lexeme@, 10u8) == 1) by {
                        assert(tok.lexeme@ == seq![10u8]);
                        assert(tok.lexeme@.drop_last() =~= Seq::<u8>::empty());
                        assert(spec_byte_count(Seq::<u8>::empty(), 10u8) == 0);
                        assert(tok.lexeme@.last() == 10u8);
                    }
                } else {
                    lemma_byte_count_absent(tok.lexeme@, 10u8);
                }
            }
            tokens.push(tok);
            proof {
                assert(tokens@.drop_last() =~= toks_before);
                assert(tokens@.last() == tok);
            }
        }
        proof {
            assert(old(self).input@.subrange(old(self).pos as int, self.pos as int) =~= old(
                self,
            ).input@.subrange(old(self).pos as int, old(self).input@.len() as int));
        }
        Ok(tokens)
    }
}

} // verus!

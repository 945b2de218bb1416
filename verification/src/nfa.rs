//! Non-deterministic finite automata over a 128-way bitmap alphabet.
//!
//! States are dense indices; `transitions` is an edge list per source state.
//! A transition label is a 128-bit bitmap: bit `i` set means the edge matches
//! ASCII character `i`, and the all-zero bitmap is the epsilon label.

use vstd::multiset::Multiset;
use vstd::prelude::*;

verus! {

/// Bitmap for `\d`: bits `'0'` through `'9'`.
pub const DIGIT_TRANSITION: u128 = 0x000000000000000003ff000000000000;

/// Bitmap for `\s`: tab, newline, vertical tab, form feed, carriage return, space.
pub const SPACE_TRANSITION: u128 = 0x00000000000000000000000100003e00;

/// Bitmap for `\w`: digits, letters and underscore.
pub const WORD_TRANSITION: u128 = 0x07fffffe87fffffe03ff000000000000;

/// The epsilon label.
pub const EPSILON_TRANSITION: u128 = 0x0;

/// Bitmap for `.`: every character.
pub const DOT_TRANSITION: u128 = 0xffffffffffffffffffffffffffffffff;

/// A state of an automaton, named by its dense index.
#[derive(Clone, Copy, Debug, Eq, Hash, PartialEq, Structural)]
pub struct State(pub usize);

/// A labeled edge between two states. The `tag` field is reserved for
/// pattern identity; construction gives every edge `-1`, and the lexer keeps
/// pattern identity in its own accept-state table instead of retagging.
#[derive(Clone, Copy, Debug)]
pub struct Transition {
    pub from: State,
    pub to: State,
    pub symbol_onehot_encoding: u128,
    pub tag: i16,
}

/// The one-hot bitmap of a single character.
pub open spec fn spec_char_onehot(c: char) -> u128 {
    1u128 << ((c as u32) as u128)
}

/// The bitmap with every bit in `[lo, hi]` set.
pub open spec fn spec_range_onehot(lo: int, hi: int) -> u128
    decreases hi - lo + 1,
{
    if lo > hi {
        0u128
    } else {
        spec_range_onehot(lo, hi - 1) | (1u128 << (hi as u128))
    }
}

/// The bitmap with the bit of each listed character set.
pub open spec fn spec_chars_onehot(s: Seq<u8>) -> u128
    decreases s.len(),
{
    if s.len() == 0 {
        0u128
    } else {
        spec_chars_onehot(s.drop_last()) | (1u128 << (s.last() as u128))
    }
}

impl Transition {
    /// The one-hot bitmap of one ASCII character.
    pub fn convert_char_to_symbol_onehot_encoding(c: char) -> (r: u128)
        requires
            c as u32 <= 127,
        ensures
            r == spec_char_onehot(c),
    {
        let b: u32 = c as u32;
        let symbol_onehot_encoding: u128 = 1u128 << (b as u128);
        symbol_onehot_encoding
    }

    /// The bitmap of an inclusive ASCII character range; `None` gives the
    /// epsilon label.
    pub fn convert_char_range_to_symbol_onehot_encoding(range: Option<(u8, u8)>) -> (r: u128)
        requires
            range matches Option::Some(r) ==> r.1 < 128,
        ensures
            r == match range {
                Option::Some((lo, hi)) => spec_range_onehot(lo as int, hi as int),
                Option::None => 0u128,
            },
    {
        let mut symbol_onehot_encoding: u128 = 0;
        match range {
            Option::Some((begin, end)) => {
                if begin <= end {
                    let mut i: u32 = begin as u32;
                    while i <= end as u32
                        invariant
                            end < 128,
                            begin as u32 <= i <= end as u32 + 1,
                            symbol_onehot_encoding == spec_range_onehot(begin as int, i - 1),
                        decreases end as u32 + 1 - i,
                    {
                        symbol_onehot_encoding |= 1u128 << (i as u128);
                        assert(symbol_onehot_encoding == spec_range_onehot(
                            begin as int,
                            i as int,
                        ));
                        i = i + 1;
                    }
                }
            },
            Option::None => {},
        }
        symbol_onehot_encoding
    }

    /// The bitmap of a list of ASCII characters.
    pub fn convert_char_vec_to_symbol_onehot_encoding(char_vec: Vec<u8>) -> (r: u128)
        requires
            forall|i: int| 0 <= i < char_vec@.len() ==> char_vec@[i] < 128,
        ensures
            r == spec_chars_onehot(char_vec@),
    {
        let mut symbol_onehot_encoding: u128 = 0;
        let mut i: usize = 0;
        while i < char_vec.len()
            invariant
                0 <= i <= char_vec@.len(),
                forall|j: int| 0 <= j < char_vec@.len() ==> char_vec@[j] < 128,
                symbol_onehot_encoding == spec_chars_onehot(char_vec@.take(i as int)),
            decreases char_vec@.len() - i,
        {
            let c = char_vec[i];
            proof {
                assert(char_vec@.take(i + 1).drop_last() =~= char_vec@.take(i as int));
                assert(char_vec@.take(i + 1).last() == char_vec@[i as int]);
            }
            symbol_onehot_encoding |= 1u128 << (c as u128);
            i = i + 1;
        }
        proof {
            assert(char_vec@.take(char_vec@.len() as int) =~= char_vec@);
        }
        symbol_onehot_encoding
    }

    /// A fresh transition with the given endpoints, label and tag.
    pub fn new(from: State, to: State, symbol_onehot_encoding: u128, tag: i16) -> (r: Transition)
        ensures
            r.from == from && r.to == to && r.symbol_onehot_encoding == symbol_onehot_encoding
                && r.tag == tag,
    {
        Transition { from, to, symbol_onehot_encoding, tag }
    }

    /// The label bitmap of this transition.
    pub fn get_symbol_onehot_encoding(&self) -> (r: u128)
        ensures
            r == self.symbol_onehot_encoding,
    {
        self.symbol_onehot_encoding
    }

    /// The characters this transition matches, in ascending order.
    pub fn get_symbol(&self) -> (r: Vec<char>)
        ensures
            r@ == spec_label_chars(self.symbol_onehot_encoding, 128),
    {
        let mut symbol: Vec<char> = Vec::new();
        let mut i: u8 = 0;
        while i < 128
            invariant
                0 <= i <= 128,
                symbol@ == spec_label_chars(self.symbol_onehot_encoding, i as int),
            decreases 128 - i,
        {
            if self.symbol_onehot_encoding & (1u128 << (i as u128)) != 0 {
                symbol.push(i as char);
            }
            i = i + 1;
        }
        symbol
    }

    /// The target state of this transition.
    pub fn get_to_state(&self) -> (r: State)
        ensures
            r == self.to,
    {
        self.to
    }
}

/// The characters below `n` whose bit is set in `label`, in ascending order.
pub open spec fn spec_label_chars(label: u128, n: int) -> Seq<char>
    decreases n,
{
    if n <= 0 {
        Seq::empty()
    } else {
        spec_label_chars(label, n - 1) + if label & (1u128 << ((n - 1) as u128)) != 0 {
            seq![((n - 1) as u8) as char]
        } else {
            Seq::empty()
        }
    }
}

/// A non-deterministic finite automaton. States are `0..states.len()`, and
/// `transitions[i]` lists the edges leaving state `i` in insertion order.
pub struct NFA {
    pub start: State,
    pub accept: State,
    pub states: Vec<State>,
    pub transitions: Vec<Vec<Transition>>,
}

impl NFA {
    /// The conventional start state of a freshly built automaton.
    pub fn start_state() -> (r: State)
        ensures
            r == (State(0usize)),
    {
        State(0)
    }

    /// The conventional accept state of a freshly built automaton.
    pub fn accept_state() -> (r: State)
        ensures
            r == (State(1usize)),
    {
        State(1)
    }

    /// The number of states.
    pub open spec fn n(self) -> int {
        self.states@.len() as int
    }

    /// The edges leaving state `i`, as a sequence.
    pub open spec fn edges(self, i: int) -> Seq<Transition> {
        self.transitions@[i]@
    }

    /// Structural soundness: a dense state list with start 0 and accept 1,
    /// one edge list per state, and every edge staying inside the automaton.
    pub open spec fn wf(self) -> bool {
        &&& self.transitions@.len() == self.n()
        &&& self.n() >= 2
        &&& self.start.0 == 0
        &&& self.accept.0 == 1
        &&& forall|i: int| 0 <= i < self.n() ==> (#[trigger] self.states@[i]).0 == i
        &&& forall|i: int, j: int|
            0 <= i < self.n() && 0 <= j < self.edges(i).len() ==> {
                &&& (#[trigger] self.edges(i)[j]).from.0 == i
                &&& self.edges(i)[j].to.0 < self.n()
            }
    }

    /// Whether the automaton holds an edge `from -> to` with the given label.
    pub open spec fn has_edge(self, from: int, to: int, label: u128) -> bool {
        &&& 0 <= from < self.n()
        &&& exists|k: int|
            0 <= k < self.edges(from).len() && {
                &&& (#[trigger] self.edges(from)[k]).to.0 == to
                &&& self.edges(from)[k].symbol_onehot_encoding == label
            }
    }

    /// `self` grew out of `pre`: states were only appended, every edge list
    /// of `pre` is a prefix of the corresponding list of `self`, and every
    /// edge added since `pre` carries tag `-1`.
    pub open spec fn extends(self, pre: NFA) -> bool {
        &&& self.n() >= pre.n()
        &&& self.transitions@.len() >= pre.transitions@.len()
        &&& forall|i: int|
            0 <= i < pre.transitions@.len() ==> (#[trigger] pre.edges(i)).is_prefix_of(
                self.edges(i),
            )
        &&& forall|i: int, j: int|
            0 <= i < self.transitions@.len() && 0 <= j < self.edges(i).len() && (i
                >= pre.transitions@.len() || j >= pre.edges(i).len()) ==> (#[trigger] self.edges(
                i,
            )[j]).tag == -1
    }

    /// Growth preserves present edges.
    pub proof fn lemma_extends_has_edge(self, pre: NFA, from: int, to: int, label: u128)
        requires
            self.extends(pre),
            pre.wf(),
            pre.has_edge(from, to, label),
        ensures
            self.has_edge(from, to, label),
    {
        let k = choose|k: int|
            0 <= k < pre.edges(from).len() && {
                &&& (#[trigger] pre.edges(from)[k]).to.0 == to
                &&& pre.edges(from)[k].symbol_onehot_encoding == label
            };
        assert(pre.edges(from).is_prefix_of(self.edges(from)));
        assert(self.edges(from)[k] == pre.edges(from)[k]);
    }

    /// Growth composes.
    pub proof fn lemma_extends_trans(self, mid: NFA, pre: NFA)
        requires
            self.extends(mid),
            mid.extends(pre),
        ensures
            self.extends(pre),
    {
        assert forall|i: int| 0 <= i < pre.transitions@.len() implies (
        #[trigger] pre.edges(i)).is_prefix_of(self.edges(i)) by {
            assert(pre.edges(i).is_prefix_of(mid.edges(i)));
            assert(mid.edges(i).is_prefix_of(self.edges(i)));
        }
        assert forall|i: int, j: int|
            0 <= i < self.transitions@.len() && 0 <= j < self.edges(i).len() && (i
                >= pre.transitions@.len() || j >= pre.edges(i).len()) implies (#[trigger] self.edges(
            i,
        )[j]).tag == -1 by {
            if i < mid.transitions@.len() && j < mid.edges(i).len() {
                assert(self.edges(i)[j] == mid.edges(i)[j]);
            }
        }
    }

    /// A fresh automaton with the two conventional states and no edges.
    pub fn new() -> (r: NFA)
        ensures
            r.wf(),
            r.n() == 2,
            r.edges(0).len() == 0,
            r.edges(1).len() == 0,
            r.start.0 == 0,
            r.accept.0 == 1,
    {
        let mut states_vec: Vec<State> = Vec::new();
        states_vec.push(State(0));
        states_vec.push(State(1));
        let mut transitions: Vec<Vec<Transition>> = Vec::new();
        transitions.push(Vec::new());
        transitions.push(Vec::new());
        NFA { start: State(0), accept: State(1), states: states_vec, transitions }
    }

    /// The start state.
    pub fn get_start(&self) -> (r: State)
        ensures
            r == self.start,
    {
        self.start
    }

    /// The accept state.
    pub fn get_accept(&self) -> (r: State)
        ensures
            r == self.accept,
    {
        self.accept
    }

    /// All edge lists, indexed by source state.
    pub fn get_transitions(&self) -> (r: &Vec<Vec<Transition>>)
        ensures
            r == &self.transitions,
    {
        &self.transitions
    }

    /// The edges leaving one state, or `None` for an index outside the
    /// automaton.
    pub fn get_transitions_from_state(&self, state: &State) -> (r: Option<&Vec<Transition>>)
        ensures
            state.0 < self.transitions@.len() ==> (r matches Option::Some(edges)
                && edges@ == self.edges(state.0 as int)),
            state.0 >= self.transitions@.len() ==> r is None,
    {
        if state.0 < self.transitions.len() {
            Some(&self.transitions[state.0])
        } else {
            None
        }
    }

    /// Appends a fresh state and returns it; its index is the old state count.
    pub fn new_state(&mut self) -> (r: State)
        requires
            old(self).wf(),
        ensures
            final(self).wf(),
            final(self).extends(*old(self)),
            r.0 == old(self).n(),
            final(self).n() == old(self).n() + 1,
            forall|i: int| 0 <= i < old(self).n() ==> final(self).edges(i) == old(self).edges(i),
            final(self).edges(old(self).n()).len() == 0,
            final(self).start == old(self).start,
            final(self).accept == old(self).accept,
    {
        let r = State(self.states.len());
        self.states.push(r);
        self.transitions.push(Vec::new());
        proof {
            assert forall|i: int| 0 <= i < old(self).n() implies self.edges(i) == old(self).edges(
                i,
            ) by {
                assert(self.transitions@[i] == old(self).transitions@[i]);
            }
            assert forall|i: int| 0 <= i < old(self).transitions@.len() implies (#[trigger] old(
                self,
            ).edges(i)).is_prefix_of(self.edges(i)) by {
                assert(self.edges(i) == old(self).edges(i));
            }
        }
        r
    }

    /// Appends the edge `from -> to` with the given label and tag `-1`.
    pub fn add_transition(&mut self, from: State, to: State, onehot: u128)
        requires
            old(self).wf(),
            from.0 < old(self).n(),
            to.0 < old(self).n(),
        ensures
            final(self).wf(),
            final(self).extends(*old(self)),
            final(self).n() == old(self).n(),
            final(self).states@ == old(self).states@,
            final(self).start == old(self).start,
            final(self).accept == old(self).accept,
            final(self).edges(from.0 as int) == old(self).edges(from.0 as int).push(
                (Transition { from, to, symbol_onehot_encoding: onehot, tag: -1i16 }),
            ),
            forall|i: int|
                0 <= i < old(self).n() && i != from.0 as int ==> final(self).edges(i) == old(self).edges(
                    i,
                ),
            final(self).has_edge(from.0 as int, to.0 as int, onehot),
    {
        let transition = Transition { from, to, symbol_onehot_encoding: onehot, tag: -1 };
        let mut row: Vec<Transition> = self.transitions.remove(from.0);
        row.push(transition);
        self.transitions.insert(from.0, row);
        proof {
            let i0 = from.0 as int;
            assert forall|i: int| 0 <= i < old(self).n() && i != i0 implies self.edges(i) == old(
                self,
            ).edges(i) by {
                assert(self.transitions@[i] == old(self).transitions@[i]);
            }
            assert(self.transitions@[i0]@ == old(self).transitions@[i0]@.push(transition));
            let k = self.edges(i0).len() - 1;
            assert(self.edges(i0)[k].to.0 == to.0);
            assert forall|i: int| 0 <= i < old(self).transitions@.len() implies (#[trigger] old(
                self,
            ).edges(i)).is_prefix_of(self.edges(i)) by {
                if i != i0 {
                    assert(self.edges(i) == old(self).edges(i));
                } else {
                    assert(old(self).edges(i0).is_prefix_of(old(self).edges(i0).push(transition)));
                }
            }
        }
    }

    /// Appends an epsilon edge `from -> to`.
    pub fn add_epsilon_transition(&mut self, from: State, to: State)
        requires
            old(self).wf(),
            from.0 < old(self).n(),
            to.0 < old(self).n(),
        ensures
            final(self).wf(),
            final(self).extends(*old(self)),
            final(self).n() == old(self).n(),
            final(self).states@ == old(self).states@,
            final(self).start == old(self).start,
            final(self).accept == old(self).accept,
            final(self).edges(from.0 as int) == old(self).edges(from.0 as int).push(
                (Transition { from, to, symbol_onehot_encoding: 0u128, tag: -1i16 }),
            ),
            forall|i: int|
                0 <= i < old(self).n() && i != from.0 as int ==> final(self).edges(i) == old(self).edges(
                    i,
                ),
            final(self).has_edge(from.0 as int, to.0 as int, 0u128),
    {
        self.add_transition(from, to, EPSILON_TRANSITION);
    }

    /// Appends an edge labeled with an inclusive character range.
    pub fn add_transition_from_range(&mut self, from: State, to: State, range: Option<(u8, u8)>)
        requires
            old(self).wf(),
            from.0 < old(self).n(),
            to.0 < old(self).n(),
            range matches Option::Some(r) ==> r.1 < 128,
        ensures
            final(self).wf(),
            final(self).extends(*old(self)),
            final(self).n() == old(self).n(),
            final(self).states@ == old(self).states@,
            final(self).start == old(self).start,
            final(self).accept == old(self).accept,
            final(self).has_edge(
                from.0 as int,
                to.0 as int,
                match range {
                    Option::Some((lo, hi)) => spec_range_onehot(lo as int, hi as int),
                    Option::None => 0u128,
                },
            ),
            final(self).edges(from.0 as int) == old(self).edges(from.0 as int).push(
                (Transition {
                    from,
                    to,
                    symbol_onehot_encoding: match range {
                        Option::Some((lo, hi)) => spec_range_onehot(lo as int, hi as int),
                        Option::None => 0u128,
                    },
                    tag: -1i16,
                }),
            ),
            forall|i: int|
                0 <= i < old(self).n() && i != from.0 as int ==> final(self).edges(i) == old(
                    self,
                ).edges(i),
    {
        let onehot = Transition::convert_char_range_to_symbol_onehot_encoding(range);
        self.add_transition(from, to, onehot);
    }
}

/// Whether a vector of states holds the given state.
pub fn contains_state(v: &Vec<State>, s: State) -> (r: bool)
    ensures
        r == v@.contains(s),
{
    let mut i: usize = 0;
    while i < v.len()
        invariant
            0 <= i <= v@.len(),
            forall|j: int| 0 <= j < i ==> v@[j] != s,
        decreases v@.len() - i,
    {
        if v[i] == s {
            return true;
        }
        i = i + 1;
    }
    false
}

/// A copy of a vector of states.
fn copy_states(v: &Vec<State>) -> (r: Vec<State>)
    ensures
        r@ == v@,
{
    let mut r: Vec<State> = Vec::new();
    let mut i: usize = 0;
    while i < v.len()
        invariant
            0 <= i <= v@.len(),
            r@ == v@.take(i as int),
        decreases v@.len() - i,
    {
        r.push(v[i]);
        proof {
            assert(v@.take(i + 1) =~= v@.take(i as int).push(v@[i as int]));
        }
        i = i + 1;
    }
    proof {
        assert(v@.take(v@.len() as int) =~= v@);
    }
    r
}

/// A sequence of distinct states drawn from `0..n` has at most `n` entries.
proof fn lemma_valid_nodup_len(s: Seq<State>, n: nat)
    requires
        s.no_duplicates(),
        n <= usize::MAX,
        forall|i: int| 0 <= i < s.len() ==> (#[trigger] s[i]).0 < n,
    ensures
        s.len() <= n,
{
    broadcast use vstd::seq_lib::seq_to_set_is_finite;

    let all = Seq::new(n, |i: int| State(i as usize));
    assert forall|i: int, j: int| 0 <= i < all.len() && 0 <= j < all.len() && i != j implies all[i]
        != all[j] by {
        assert(all[i].0 == i as usize);
        assert(all[j].0 == j as usize);
    }
    assert(all.no_duplicates());
    s.unique_seq_to_set();
    all.unique_seq_to_set();
    assert forall|x: State| s.to_set().contains(x) implies all.to_set().contains(x) by {
        assert(s.contains(x));
        let i = choose|i: int| 0 <= i < s.len() && s[i] == x;
        assert(all[x.0 as int] == x);
        assert(all.contains(x));
    }
    vstd::set_lib::lemma_len_subset(s.to_set(), all.to_set());
}

/// Every member of a sequence is still a member after a push.
pub proof fn lemma_push_keeps_members(s: Seq<State>, x: State)
    ensures
        forall|y: State| s.contains(y) ==> #[trigger] s.push(x).contains(y),
        s.push(x).contains(x),
        !s.contains(x) && s.no_duplicates() ==> s.push(x).no_duplicates(),
{
    assert forall|y: State| s.contains(y) implies #[trigger] s.push(x).contains(y) by {
        let i = choose|i: int| 0 <= i < s.len() && s[i] == y;
        assert(s.push(x)[i] == y);
    }
    assert(s.push(x)[s.len() as int] == x);
    if !s.contains(x) && s.no_duplicates() {
        assert forall|i: int, j: int|
            0 <= i < s.push(x).len() && 0 <= j < s.push(x).len() && i != j implies s.push(x)[i]
            != s.push(x)[j] by {
            if j == s.len() as int {
                assert(s.push(x)[i] == s[i]);
            } else if i == s.len() as int {
                assert(s.push(x)[j] == s[j]);
            }
        }
    }
}

/// `p` is a walk through the automaton along epsilon edges only.
pub open spec fn spec_eps_path(n: NFA, p: Seq<int>) -> bool {
    &&& p.len() >= 1
    &&& (forall|i: int| 0 <= i < p.len() ==> 0 <= #[trigger] p[i] < n.n())
    &&& (forall|i: int| 0 <= i < p.len() - 1 ==> n.has_edge(#[trigger] p[i], p[i + 1], 0u128))
}

/// `t` is reachable from some seed state along epsilon edges alone.
pub open spec fn spec_eps_reachable(n: NFA, seeds: Seq<State>, t: State) -> bool {
    exists|p: Seq<int>|
        {
            &&& #[trigger] spec_eps_path(n, p)
            &&& 0 <= p[0] < n.n() && seeds.contains(State(p[0] as usize))
            &&& p.last() == t.0 as int
        }
}

/// A set closed under epsilon edges covers every epsilon path from a member:
/// together with the closure's other clauses, the computed closure is the
/// least superset of its seeds closed under epsilon edges.
pub proof fn lemma_closed_covers_eps_paths(n: NFA, closure: Seq<State>, p: Seq<int>)
    requires
        n.wf(),
        n.n() <= usize::MAX,
        forall|s: State, k: int|
            closure.contains(s) && 0 <= k < n.edges(s.0 as int).len() && (#[trigger] n.edges(
                s.0 as int,
            )[k]).symbol_onehot_encoding == 0 ==> closure.contains(n.edges(s.0 as int)[k].to),
        spec_eps_path(n, p),
        closure.contains(State(p[0] as usize)),
    ensures
        closure.contains(State(p.last() as usize)),
    decreases p.len(),
{
    if p.len() > 1 {
        assert(n.has_edge(p[0], p[1], 0u128));
        let s0 = State(p[0] as usize);
        let k = choose|k: int|
            0 <= k < n.edges(p[0]).len() && {
                &&& (#[trigger] n.edges(p[0])[k]).to.0 == p[1]
                &&& n.edges(p[0])[k].symbol_onehot_encoding == 0u128
            };
        assert(s0.0 as int == p[0]);
        assert(closure.contains(n.edges(s0.0 as int)[k].to));
        assert(n.edges(p[0])[k].to == State(p[1] as usize));
        let q = p.skip(1);
        assert(spec_eps_path(n, q)) by {
            assert forall|i: int| 0 <= i < q.len() - 1 implies n.has_edge(
                #[trigger] q[i],
                q[i + 1],
                0u128,
            ) by {
                assert(q[i] == p[i + 1] && q[i + 1] == p[i + 2]);
            }
        }
        assert(q[0] == p[1]);
        lemma_closed_covers_eps_paths(n, closure, q);
        assert(q.last() == p.last());
    }
}

/// An epsilon path grows by one epsilon edge at its end.
proof fn lemma_eps_path_extend(n: NFA, p: Seq<int>, t: int)
    requires
        spec_eps_path(n, p),
        n.has_edge(p.last(), t, 0u128),
        0 <= t < n.n(),
    ensures
        spec_eps_path(n, p.push(t)),
        p.push(t).last() == t,
        p.push(t)[0] == p[0],
{
    let q = p.push(t);
    assert forall|i: int| 0 <= i < q.len() - 1 implies n.has_edge(#[trigger] q[i], q[i + 1], 0u128) by {
        if i < p.len() - 1 {
            assert(q[i] == p[i] && q[i + 1] == p[i + 1]);
        } else {
            assert(q[i] == p.last() && q[i + 1] == t);
        }
    }
}

impl NFA {
    /// The least superset of `states` closed under epsilon edges, found by a
    /// depth-first walk: each member is epsilon-reachable from the seeds, the
    /// result is closed under epsilon edges, and it keeps the seed states
    /// first, appending each newly reached state once.
    pub fn epsilon_closure(&self, states: &Vec<State>) -> (closure: Vec<State>)
        requires
            self.wf(),
            forall|i: int| 0 <= i < states@.len() ==> (#[trigger] states@[i]).0 < self.n(),
            states@.no_duplicates(),
        ensures
            forall|s: State| states@.contains(s) ==> closure@.contains(s),
            forall|i: int| 0 <= i < closure@.len() ==> (#[trigger] closure@[i]).0 < self.n(),
            closure@.no_duplicates(),
            forall|s: State, k: int|
                closure@.contains(s) && 0 <= k < self.edges(s.0 as int).len() && (
                #[trigger] self.edges(s.0 as int)[k]).symbol_onehot_encoding == 0 ==>
                    closure@.contains(self.edges(s.0 as int)[k].to),
            forall|i: int|
                0 <= i < closure@.len() ==> spec_eps_reachable(
                    *self,
                    states@,
                    #[trigger] closure@[i],
                ),
    {
        let num_states = self.states.len();
        let ghost n = self.n();
        proof {
            assert(n <= usize::MAX);
        }
        let mut closure: Vec<State> = copy_states(states);
        let mut stack: Vec<State> = copy_states(states);
        proof {
            lemma_valid_nodup_len(closure@, n as nat);
            assert forall|i: int| 0 <= i < closure@.len() implies spec_eps_reachable(
                *self,
                states@,
                #[trigger] closure@[i],
            ) by {
                let s = closure@[i];
                let p: Seq<int> = seq![s.0 as int];
                assert(spec_eps_path(*self, p));
                assert(State(p[0] as usize) == s);
                assert(states@.contains(s));
            }
        }

        loop
            invariant
                self.wf(),
                n == self.n(),
                n <= usize::MAX,
                forall|i: int| 0 <= i < closure@.len() ==> (#[trigger] closure@[i]).0 < n,
                closure@.no_duplicates(),
                closure@.len() <= n,
                forall|s: State| states@.contains(s) ==> closure@.contains(s),
                forall|i: int| 0 <= i < stack@.len() ==> closure@.contains(#[trigger] stack@[i]),
                forall|s: State, k: int|
                    closure@.contains(s) && !stack@.contains(s) && 0 <= k < self.edges(
                        s.0 as int,
                    ).len() && (#[trigger] self.edges(s.0 as int)[k]).symbol_onehot_encoding == 0
                        ==> closure@.contains(self.edges(s.0 as int)[k].to),
                forall|i: int|
                    0 <= i < closure@.len() ==> spec_eps_reachable(
                        *self,
                        states@,
                        #[trigger] closure@[i],
                    ),
            ensures
                stack@.len() == 0,
            decreases n - closure@.len(), stack@.len(),
        {
            if stack.len() == 0 {
                proof {
                    assert(forall|s: State| !stack@.contains(s));
                }
                break;
            }
            let ghost stack_before_pop = stack@;
            let state = match stack.pop() {
                Option::Some(st) => st,
                Option::None => {
                    proof {
                        assert(false);
                    }
                    break;
                },
            };
            proof {
                assert(stack_before_pop.last() == state);
                assert(stack_before_pop.contains(state)) by {
                    assert(stack_before_pop[stack_before_pop.len() - 1] == state);
                }
                assert(closure@.contains(state));
                assert forall|s: State| #[trigger] stack@.contains(s) implies stack_before_pop.contains(
                    s,
                ) by {
                    let i = choose|i: int| 0 <= i < stack@.len() && stack@[i] == s;
                    assert(stack_before_pop[i] == s);
                }
                assert(stack@ =~= stack_before_pop.drop_last());
                assert forall|s: State| s != state && !stack@.contains(s) implies
                    !stack_before_pop.contains(s) by {
                    if stack_before_pop.contains(s) {
                        let i = choose|i: int|
                            0 <= i < stack_before_pop.len() && stack_before_pop[i] == s;
                        if i < stack_before_pop.len() - 1 {
                            assert(stack@[i] == s);
                            assert(stack@.contains(s));
                        }
                    }
                }
            }
            let ghost closure_at_pop = closure@;
            let ghost stack_at_pop = stack@;
            let num_edges = self.transitions[state.0].len();
            let mut k: usize = 0;
            while k < num_edges
                invariant
                    self.wf(),
                    n == self.n(),
                    n <= usize::MAX,
                    state.0 < n,
                    num_edges == self.edges(state.0 as int).len(),
                    0 <= k <= num_edges,
                    forall|i: int| 0 <= i < closure@.len() ==> (#[trigger] closure@[i]).0 < n,
                    closure@.no_duplicates(),
                    closure@.len() <= n,
                    closure@.contains(state),
                    closure@.len() - closure_at_pop.len() == stack@.len() - stack_at_pop.len(),
                    closure@.len() >= closure_at_pop.len(),
                    forall|s: State| states@.contains(s) ==> closure@.contains(s),
                    forall|i: int| 0 <= i < stack@.len() ==> closure@.contains(
                        #[trigger] stack@[i],
                    ),
                    forall|s: State| #[trigger] stack_at_pop.contains(s) ==> stack@.contains(s),
                    forall|s: State, kk: int|
                        closure@.contains(s) && s != state && !stack@.contains(s) && 0 <= kk
                            < self.edges(s.0 as int).len() && (#[trigger] self.edges(
                            s.0 as int,
                        )[kk]).symbol_onehot_encoding == 0 ==> closure@.contains(
                            self.edges(s.0 as int)[kk].to,
                        ),
                    forall|kk: int|
                        0 <= kk < k && (#[trigger] self.edges(
                            state.0 as int,
                        )[kk]).symbol_onehot_encoding == 0 ==> closure@.contains(
                            self.edges(state.0 as int)[kk].to,
                        ),
                    forall|i: int|
                        0 <= i < closure@.len() ==> spec_eps_reachable(
                            *self,
                            states@,
                            #[trigger] closure@[i],
                        ),
                decreases num_edges - k,
            {
                let t = self.transitions[state.0][k];
                if t.symbol_onehot_encoding == 0 {
                    let to_state = t.to;
                    if !contains_state(&closure, to_state) {
                        proof {
                            lemma_push_keeps_members(closure@, to_state);
                            lemma_push_keeps_members(stack@, to_state);
                            lemma_valid_nodup_len(closure@.push(to_state), n as nat);
                            let idx = choose|idx: int|
                                0 <= idx < closure@.len() && closure@[idx] == state;
                            assert(spec_eps_reachable(*self, states@, state));
                            let p = choose|p: Seq<int>|
                                {
                                    &&& #[trigger] spec_eps_path(*self, p)
                                    &&& 0 <= p[0] < self.n() && states@.contains(
                                        State(p[0] as usize),
                                    )
                                    &&& p.last() == state.0 as int
                                };
                            assert(self.has_edge(state.0 as int, to_state.0 as int, 0u128)) by {
                                assert(self.edges(state.0 as int)[k as int].to == to_state);
                            }
                            lemma_eps_path_extend(*self, p, to_state.0 as int);
                            assert(spec_eps_reachable(*self, states@, to_state)) by {
                                assert(spec_eps_path(*self, p.push(to_state.0 as int)));
                                assert(p.push(to_state.0 as int).last() == to_state.0 as int);
                            }
                            let before = closure@;
                            assert forall|i: int|
                                0 <= i < before.push(to_state).len() implies spec_eps_reachable(
                                *self,
                                states@,
                                #[trigger] before.push(to_state)[i],
                            ) by {
                                if i < before.len() {
                                    assert(before.push(to_state)[i] == before[i]);
                                } else {
                                    assert(before.push(to_state)[i] == to_state);
                                }
                            }
                        }
                        closure.push(to_state);
                        stack.push(to_state);
                    }
                }
                k = k + 1;
            }
            proof {
                // The popped state is now fully processed; with it handled, the
                // pending-closedness invariant holds for every closure member
                // that is off the stack.
                assert forall|s: State, kk: int|
                    closure@.contains(s) && !stack@.contains(s) && 0 <= kk < self.edges(
                        s.0 as int,
                    ).len() && (#[trigger] self.edges(s.0 as int)[kk]).symbol_onehot_encoding
                        == 0 implies closure@.contains(self.edges(s.0 as int)[kk].to) by {
                    if s != state {
                        assert(!stack_at_pop.contains(s));
                    }
                }
            }
        }
        closure
    }
}

/// The decimal digits of `n`, most significant first.
pub open spec fn spec_dec_bytes(n: nat) -> Seq<u8>
    decreases n,
{
    if n < 10 {
        seq![(48 + n) as u8]
    } else {
        spec_dec_bytes(n / 10) + seq![(48 + n % 10) as u8]
    }
}

/// The decimal representation of a non-negative number.
pub(crate) fn dec_bytes(n: usize) -> (r: Vec<u8>)
    ensures
        r@ == spec_dec_bytes(n as nat),
        r@.len() >= 1,
        forall|i: int| 0 <= i < r@.len() ==> 48 <= #[trigger] r@[i] <= 57,
    decreases n,
{
    proof {
        lemma_dec_bytes_digits(n as nat);
    }
    if n < 10 {
        let mut v: Vec<u8> = Vec::new();
        v.push(48 + n as u8);
        proof {
            assert(v@ =~= spec_dec_bytes(n as nat));
        }
        v
    } else {
        let mut v = dec_bytes(n / 10);
        v.push(48 + (n % 10) as u8);
        proof {
            assert(v@ =~= spec_dec_bytes(n as nat));
        }
        v
    }
}

/// Decimal representations hold digit bytes only.
pub(crate) proof fn lemma_dec_bytes_digits(n: nat)
    ensures
        spec_dec_bytes(n).len() >= 1,
        forall|i: int| 0 <= i < spec_dec_bytes(n).len() ==> 48 <= #[trigger] spec_dec_bytes(n)[i]
            <= 57,
    decreases n,
{
    if n >= 10 {
        lemma_dec_bytes_digits(n / 10);
    }
}

/// Lexicographic order on byte strings: a prefix comes first, and otherwise
/// the first differing byte decides.
pub open spec fn spec_lex_le(a: Seq<u8>, b: Seq<u8>) -> bool
    decreases a.len(),
{
    if a.len() == 0 {
        true
    } else if b.len() == 0 {
        false
    } else if a[0] < b[0] {
        true
    } else if a[0] > b[0] {
        false
    } else {
        spec_lex_le(a.drop_first(), b.drop_first())
    }
}

/// Lexicographic order is total.
proof fn lemma_lex_le_total(a: Seq<u8>, b: Seq<u8>)
    ensures
        spec_lex_le(a, b) || spec_lex_le(b, a),
    decreases a.len(),
{
    if a.len() > 0 && b.len() > 0 && a[0] == b[0] {
        lemma_lex_le_total(a.drop_first(), b.drop_first());
    }
}

/// Lexicographic order is transitive.
proof fn lemma_lex_le_trans(a: Seq<u8>, b: Seq<u8>, c: Seq<u8>)
    requires
        spec_lex_le(a, b),
        spec_lex_le(b, c),
    ensures
        spec_lex_le(a, c),
    decreases a.len(),
{
    if a.len() > 0 && b.len() > 0 && c.len() > 0 && a[0] == b[0] && b[0] == c[0] {
        lemma_lex_le_trans(a.drop_first(), b.drop_first(), c.drop_first());
    }
}

/// Whether `a` is lexicographically at most `b`, compared from offset `i`.
fn lex_le_from(a: &Vec<u8>, b: &Vec<u8>, i: usize) -> (r: bool)
    requires
        i <= a@.len(),
        i <= b@.len(),
    ensures
        r == spec_lex_le(a@.skip(i as int), b@.skip(i as int)),
    decreases a@.len() - i,
{
    proof {
        if a@.skip(i as int).len() > 0 {
            assert(a@.skip(i as int)[0] == a@[i as int]);
        }
        if b@.skip(i as int).len() > 0 {
            assert(b@.skip(i as int)[0] == b@[i as int]);
        }
    }
    if i == a.len() {
        true
    } else if i == b.len() {
        false
    } else if a[i] < b[i] {
        true
    } else if a[i] > b[i] {
        false
    } else {
        proof {
            assert(a@.skip(i as int).drop_first() =~= a@.skip(i + 1));
            assert(b@.skip(i as int).drop_first() =~= b@.skip(i + 1));
        }
        lex_le_from(a, b, i + 1)
    }
}

/// Whether `a` comes at or before `b` in lexicographic order.
fn lex_le(a: &Vec<u8>, b: &Vec<u8>) -> (r: bool)
    ensures
        r == spec_lex_le(a@, b@),
{
    proof {
        assert(a@.skip(0) =~= a@);
        assert(b@.skip(0) =~= b@);
    }
    lex_le_from(a, b, 0)
}

/// The names joined with commas.
pub open spec fn spec_join_names(names: Seq<Seq<u8>>) -> Seq<u8>
    decreases names.len(),
{
    if names.len() == 0 {
        Seq::empty()
    } else if names.len() == 1 {
        names[0]
    } else {
        spec_join_names(names.drop_last()) + seq![44u8] + names.last()
    }
}

/// The byte strings of a list of names.
pub open spec fn spec_name_views(names: Seq<Vec<u8>>) -> Seq<Seq<u8>> {
    names.map_values(|v: Vec<u8>| v@)
}

/// The decimal names of a sequence of states.
pub open spec fn spec_state_names(states: Seq<State>) -> Seq<Seq<u8>> {
    states.map_values(|s: State| spec_dec_bytes(s.0 as nat))
}

/// `sorted` lists exactly the given names, in lexicographic order.
pub open spec fn spec_sorted_names(names: Seq<Seq<u8>>, sorted: Seq<Seq<u8>>) -> bool {
    &&& sorted.to_multiset() == names.to_multiset()
    &&& forall|i: int, j: int|
        0 <= i <= j < sorted.len() ==> spec_lex_le(#[trigger] sorted[i], #[trigger] sorted[j])
}

/// Relies on `String::from_utf8`: ASCII bytes decode to exactly the
/// characters with the same code points.
#[verifier::external_body]
pub(crate) fn ascii_bytes_to_string(bytes: Vec<u8>) -> (r: String)
    requires
        forall|i: int| 0 <= i < bytes@.len() ==> bytes@[i] < 128,
    ensures
        r@ == bytes@.map_values(|b: u8| b as char),
{
    match std::string::String::from_utf8(bytes) {
        Ok(s) => s,
        Err(_) => std::string::String::new(),
    }
}

/// Sorts names lexicographically by repeatedly moving a least remaining name
/// over to the output.
fn sort_names(names: Vec<Vec<u8>>) -> (r: Vec<Vec<u8>>)
    ensures
        spec_sorted_names(spec_name_views(names@), spec_name_views(r@)),
        (forall|k: int, m: int|
            0 <= k < names@.len() && 0 <= m < names@[k]@.len() ==> 44 <= (
            #[trigger] names@[k]@[m]) <= 57) ==> (forall|k: int, m: int|
            0 <= k < r@.len() && 0 <= m < r@[k]@.len() ==> 44 <= (#[trigger] r@[k]@[m]) <= 57),
{
    broadcast use vstd::seq_lib::group_to_multiset_ensures;
    broadcast use vstd::multiset::group_multiset_axioms;

    let mut rest = names;
    let mut sorted: Vec<Vec<u8>> = Vec::new();
    while rest.len() > 0
        invariant
            spec_name_views(sorted@).to_multiset().add(spec_name_views(rest@).to_multiset())
                =~= spec_name_views(names@).to_multiset(),
            forall|i: int, j: int|
                0 <= i <= j < sorted@.len() ==> spec_lex_le(
                #[trigger] spec_name_views(sorted@)[i],
                #[trigger] spec_name_views(sorted@)[j],
            ),
            forall|i: int, k: int|
                0 <= i < sorted@.len() && 0 <= k < rest@.len() ==> spec_lex_le(
                #[trigger] sorted@[i]@,
                #[trigger] rest@[k]@,
            ),
        decreases rest@.len(),
    {
        let mut mi: usize = 0;
        let mut j: usize = 1;
        proof {
            lemma_lex_le_total(rest@[0]@, rest@[0]@);
        }
        while j < rest.len()
            invariant
                rest@.len() > 0,
                0 <= mi < j <= rest@.len(),
                forall|k: int| 0 <= k < j ==> spec_lex_le(rest@[mi as int]@, #[trigger] rest@[k]@),
            decreases rest@.len() - j,
        {
            proof {
                lemma_lex_le_total(rest@[mi as int]@, rest@[j as int]@);
            }
            if !lex_le(&rest[mi], &rest[j]) {
                let ghost old_mi = mi as int;
                mi = j;
                proof {
                    assert forall|k: int| 0 <= k < j implies spec_lex_le(
                        rest@[mi as int]@,
                        #[trigger] rest@[k]@,
                    ) by {
                        lemma_lex_le_trans(rest@[mi as int]@, rest@[old_mi]@, rest@[k]@);
                    }
                }
            }
            proof {
                lemma_lex_le_total(rest@[mi as int]@, rest@[j as int]@);
            }
            j = j + 1;
        }
        let ghost rest_before = rest@;
        let x = rest.remove(mi);
        proof {
            assert(spec_name_views(rest@) =~= spec_name_views(rest_before).remove(mi as int));
            assert(spec_name_views(rest_before)[mi as int] == x@);
            spec_name_views(rest_before).to_multiset_ensures();
            assert(spec_name_views(rest_before).remove(mi as int).to_multiset()
                =~= spec_name_views(rest_before).to_multiset().remove(x@));
            assert(spec_name_views(rest_before).contains(x@));
        }
        let ghost sorted_before = sorted@;
        sorted.push(x);
        proof {
            assert(spec_name_views(sorted@) =~= spec_name_views(sorted_before).push(x@));
            spec_name_views(sorted_before).to_multiset_ensures();
            assert(spec_name_views(sorted_before).push(x@).to_multiset()
                =~= spec_name_views(sorted_before).to_multiset().insert(x@));
            assert(spec_name_views(sorted@).to_multiset().add(
                spec_name_views(rest@).to_multiset(),
            ) =~= spec_name_views(names@).to_multiset());
            assert forall|i: int, k: int|
                0 <= i < sorted@.len() && 0 <= k < rest@.len() implies spec_lex_le(
                #[trigger] sorted@[i]@,
                #[trigger] rest@[k]@,
            ) by {
                if i < sorted_before.len() {
                    if k < mi as int {
                        assert(rest@[k]@ == rest_before[k]@);
                    } else {
                        assert(rest@[k]@ == rest_before[k + 1]@);
                    }
                } else {
                    assert(sorted@[i]@ == x@);
                    if k < mi as int {
                        assert(rest@[k]@ == rest_before[k]@);
                        assert(spec_lex_le(x@, rest_before[k]@));
                    } else {
                        assert(rest@[k]@ == rest_before[k + 1]@);
                        assert(spec_lex_le(x@, rest_before[k + 1]@));
                    }
                }
            }
            assert forall|i: int, j2: int|
                0 <= i <= j2 < sorted@.len() implies spec_lex_le(
                #[trigger] spec_name_views(sorted@)[i],
                #[trigger] spec_name_views(sorted@)[j2],
            ) by {
                if j2 == sorted@.len() - 1 && i < j2 {
                    assert(spec_lex_le(sorted_before[i]@, rest_before[mi as int]@));
                } else if i == j2 {
                    lemma_lex_le_total(sorted@[i]@, sorted@[i]@);
                }
            }
        }
    }
    proof {
        assert(spec_name_views(rest@).to_multiset() =~= Multiset::empty());
        assert(spec_name_views(sorted@).to_multiset() =~= spec_name_views(names@).to_multiset());
        if forall|k: int, m: int|
            0 <= k < names@.len() && 0 <= m < names@[k]@.len() ==> 44 <= (
            #[trigger] names@[k]@[m]) <= 57 {
            assert forall|k: int, m: int|
                0 <= k < sorted@.len() && 0 <= m < sorted@[k]@.len() implies 44 <= (
            #[trigger] sorted@[k]@[m]) <= 57 by {
                let v = spec_name_views(sorted@)[k];
                assert(spec_name_views(sorted@).contains(v));
                assert(spec_name_views(names@).to_multiset().count(v) > 0);
                assert(spec_name_views(names@).contains(v));
                let w = choose|w: int|
                    0 <= w < spec_name_views(names@).len() && spec_name_views(names@)[w] == v;
                assert(names@[w]@ == v);
            }
        }
    }
    sorted
}

impl NFA {
    /// The stable key of a state set: the decimal names of its states,
    /// sorted as strings and joined with commas.
    pub fn get_combined_state_names(states: &Vec<State>) -> (r: String)
        ensures
            exists|sorted: Seq<Seq<u8>>|
                {
                    &&& #[trigger] spec_sorted_names(spec_state_names(states@), sorted)
                    &&& r@ == spec_join_names(sorted).map_values(|b: u8| b as char)
                },
    {
        let mut names: Vec<Vec<u8>> = Vec::new();
        let mut i: usize = 0;
        while i < states.len()
            invariant
                0 <= i <= states@.len(),
                spec_name_views(names@) =~= spec_state_names(states@.take(i as int)),
                forall|k: int, m: int|
                    0 <= k < names@.len() && 0 <= m < names@[k]@.len() ==> 44 <= (
                    #[trigger] names@[k]@[m]) <= 57,
            decreases states@.len() - i,
        {
            let ghost names_before = names@;
            names.push(dec_bytes(states[i].0));
            proof {
                assert(spec_name_views(names@) =~= spec_name_views(names_before).push(
                    spec_dec_bytes(states@[i as int].0 as nat),
                ));
                assert(spec_state_names(states@.take(i + 1)) =~= spec_state_names(
                    states@.take(i as int),
                ).push(spec_dec_bytes(states@[i as int].0 as nat)));
            }
            i = i + 1;
        }
        proof {
            assert(states@.take(states@.len() as int) =~= states@);
        }
        let sorted = sort_names(names);
        let mut out: Vec<u8> = Vec::new();
        let mut k: usize = 0;
        while k < sorted.len()
            invariant
                0 <= k <= sorted@.len(),
                out@ == spec_join_names(spec_name_views(sorted@).take(k as int)),
                forall|i2: int, m: int|
                    0 <= i2 < sorted@.len() && 0 <= m < sorted@[i2]@.len() ==> 44 <= (
                    #[trigger] sorted@[i2]@[m]) <= 57,
                forall|m: int| 0 <= m < out@.len() ==> 44 <= #[trigger] out@[m] <= 57,
            decreases sorted@.len() - k,
        {
            let ghost out_before = out@;
            if k > 0 {
                out.push(44);
            }
            let name = &sorted[k];
            let mut m: usize = 0;
            while m < name.len()
                invariant
                    0 <= m <= name@.len(),
                    name@ == sorted@[k as int]@,
                    k < sorted@.len(),
                    forall|i2: int, m2: int|
                        0 <= i2 < sorted@.len() && 0 <= m2 < sorted@[i2]@.len() ==> 44 <= (
                        #[trigger] sorted@[i2]@[m2]) <= 57,
                    forall|m2: int| 0 <= m2 < out@.len() - m ==> 44 <= #[trigger] out@[m2] <= 57,
                    out@ == (if k > 0 {
                        out_before.push(44u8)
                    } else {
                        out_before
                    }) + name@.take(m as int),
                decreases name@.len() - m,
            {
                out.push(name[m]);
                proof {
                    assert(name@.take(m + 1) =~= name@.take(m as int).push(name@[m as int]));
                }
                m = m + 1;
            }
            proof {
                assert(name@.take(name@.len() as int) =~= name@);
                let views = spec_name_views(sorted@);
                assert(views.take(k + 1).drop_last() =~= views.take(k as int));
                assert(views.take(k + 1).last() == views[k as int]);
                if k > 0 {
                    assert(out@ =~= spec_join_names(views.take(k as int)) + seq![44u8]
                        + views[k as int]);
                } else {
                    assert(out@ =~= views[0]);
                }
                assert(forall|m2: int| 0 <= m2 < out@.len() ==> 44 <= #[trigger] out@[m2] <= 57);
            }
            k = k + 1;
        }
        proof {
            assert(spec_name_views(sorted@).take(sorted@.len() as int) =~= spec_name_views(
                sorted@,
            ));
        }
        ascii_bytes_to_string(out)
    }
}

} // verus!

use crate::language::{Error, EMPTY_STRING};
use crate::traits::{Alphabet, AlphabetIter, State, StateIter, Transition};
use crate::dfa::{keys_unique, Dfa};
use crate::operators;
use crate::util::{is_valid_regex, lemma_depth_step, paren_depth, sorted_strict, without_symbol};
use vstd::prelude::*;

verus! {

/// A nondeterministic finite automaton. Its states are `0..num_states`, and
/// state `0` is the start state. Each transition is a triple
/// `(source, symbol, target)`; the symbol `EMPTY_STRING` marks a transition
/// taken without reading input.
#[derive(Debug, Clone)]
pub struct Nfa {
    pub num_states: u32,
    pub alphabet: Vec<char>,
    pub transitions: Vec<(u32, char, u32)>,
    pub accept_states: Vec<u32>,
}

impl Nfa {
    pub open spec fn has_edge(&self, q: u32, a: char, d: u32) -> bool {
        self.transitions@.contains((q, a, d))
    }

    pub open spec fn is_accept(&self, q: u32) -> bool {
        self.accept_states@.contains(q)
    }

    /// Transitions join states of the automaton on symbols of its alphabet;
    /// the alphabet starts with the empty-word marker and has no symbol twice; the
    /// accept states are states, kept in increasing order.
    pub open spec fn wf(&self) -> bool {
        &&& 1 <= self.num_states
        &&& self.alphabet@.no_duplicates()
        &&& self.alphabet@.contains(EMPTY_STRING)
        &&& self.alphabet@[0] == EMPTY_STRING
        &&& forall|i: int|
            0 <= i < self.transitions@.len() ==> {
                let t = #[trigger] self.transitions@[i];
                t.0 < self.num_states && t.2 < self.num_states && self.alphabet@.contains(t.1)
            }
        &&& sorted_strict(self.accept_states@)
        &&& forall|i: int|
            0 <= i < self.accept_states@.len() ==> #[trigger] self.accept_states@[i]
                < self.num_states
    }

    /// The automaton with the single state `0`, the alphabet `[ε]`, no
    /// transitions and no accept state.
    pub fn new() -> (r: Self)
        ensures
            r.wf(),
            r.num_states == 1,
            r.alphabet@ == seq![EMPTY_STRING],
            r.transitions@.len() == 0,
            r.accept_states@.len() == 0,
    {
        let r = Nfa {
            num_states: 1,
            alphabet: vec![EMPTY_STRING],
            transitions: Vec::new(),
            accept_states: Vec::new(),
        };
        assert(r.alphabet@ =~= seq![EMPTY_STRING]);
        r
    }

    /// The last state added, which is the largest.
    pub fn last_added_state(&self) -> (r: u32)
        requires
            self.wf(),
        ensures
            r == self.num_states - 1,
    {
        self.num_states - 1
    }

    pub fn start_state(&self) -> (r: u32)
        ensures
            r == 0,
    {
        0
    }

    pub fn num_states(&self) -> (r: usize)
        ensures
            r == self.num_states,
    {
        self.num_states as usize
    }

    pub fn is_accept_state(&self, state: u32) -> (r: bool)
        ensures
            r == self.is_accept(state),
    {
        vec_contains_u32(&self.accept_states, state)
    }

    /// The targets of the transitions from `key.0` on `key.1`, in increasing
    /// order, or `None` where there are none.
    pub fn get_transition(&self, key: (u32, char)) -> (r: Option<Vec<u32>>)
        requires
            self.wf(),
        ensures
            r is None <==> (forall|d: u32| !self.has_edge(key.0, key.1, d)),
            r matches Some(v) ==> sorted_strict(v@) && forall|d: u32|
                v@.contains(d) <==> self.has_edge(key.0, key.1, d),
    {
        let mut marks: Vec<bool> = Vec::new();
        let mut q: u32 = 0;
        while q < self.num_states
            invariant
                q <= self.num_states,
                marks.len() == q,
                forall|d: int| 0 <= d < q ==> !marks@[d],
            decreases self.num_states - q,
        {
            marks.push(false);
            q = q + 1;
        }
        let mut any = false;
        let mut e: usize = 0;
        while e < self.transitions.len()
            invariant
                self.wf(),
                marks.len() == self.num_states,
                e <= self.transitions.len(),
                forall|d: u32|
                    d < self.num_states ==> (marks@[d as int] <==> exists|j: int|
                        0 <= j < e && #[trigger] self.transitions@[j] == (key.0, key.1, d)),
                any <==> exists|d: u32| d < self.num_states && marks@[d as int],
            decreases self.transitions.len() - e,
        {
            let t = self.transitions[e];
            if t.0 == key.0 && t.1 == key.1 {
                marks.set(t.2 as usize, true);
                any = true;
            }
            proof {
                assert forall|d: u32| d < self.num_states implies (marks@[d as int] <==> exists|
                    j: int,
                | 0 <= j < e + 1 && #[trigger] self.transitions@[j] == (key.0, key.1, d)) by {
                    if t == (key.0, key.1, d) {
                        assert(self.transitions@[e as int] == (key.0, key.1, d));
                    }
                }
                if any {
                    if t.0 == key.0 && t.1 == key.1 {
                        assert(marks@[t.2 as int]);
                    }
                }
            }
            e = e + 1;
        }
        proof {
            assert forall|d: u32| self.has_edge(key.0, key.1, d) implies d < self.num_states
                && marks@[d as int] by {
                let j = choose|j: int|
                    0 <= j < self.transitions@.len() && self.transitions@[j] == (key.0, key.1, d);
                assert(self.transitions@[j].2 < self.num_states);
            }
            assert forall|d: u32| d < self.num_states && marks@[d as int] implies self.has_edge(
                key.0,
                key.1,
                d,
            ) by {
                let j = choose|j: int|
                    0 <= j < self.transitions.len() && #[trigger] self.transitions@[j] == (
                        key.0,
                        key.1,
                        d,
                    );
            }
        }
        if any {
            proof {
                let d = choose|d: u32| d < self.num_states && marks@[d as int];
                assert(self.has_edge(key.0, key.1, d));
            }
            let v = crate::util::marked_values(&marks);
            Some(v)
        } else {
            assert forall|d: u32| !self.has_edge(key.0, key.1, d) by {
                if self.has_edge(key.0, key.1, d) {
                    assert(d < self.num_states && marks@[d as int]);
                }
            }
            None
        }
    }
}


impl Default for Nfa {
    /// The automaton of [`Nfa::new`].
    fn default() -> (r: Self)
        ensures
            r.wf(),
            r.num_states == 1,
            r.alphabet@ == seq![EMPTY_STRING],
            r.transitions@.len() == 0,
            r.accept_states@.len() == 0,
    {
        Nfa::new()
    }
}

impl State for Nfa {
    /// Appends the state `num_states`; an automaton that already has
    /// `u32::MAX` states is left as it is.
    fn add_state(&mut self)
        ensures
            old(self).wf() ==> final(self).wf(),
            final(self).num_states == if old(self).num_states < u32::MAX {
                old(self).num_states + 1
            } else {
                old(self).num_states as int
            },
            final(self).alphabet@ == old(self).alphabet@,
            final(self).transitions@ == old(self).transitions@,
            final(self).accept_states@ == old(self).accept_states@,
    {
        if self.num_states < u32::MAX {
            self.num_states = self.num_states + 1;
        }
    }

    /// Removes the last state, with the transitions that touch it, unless it
    /// is the start state.
    fn remove_state(&mut self)
        ensures
            old(self).wf() ==> final(self).wf(),
            old(self).num_states <= 1 ==> *final(self) == *old(self),
            old(self).num_states > 1 ==> {
                let last = (old(self).num_states - 1) as u32;
                &&& final(self).num_states == last
                &&& final(self).alphabet@ == old(self).alphabet@
                &&& forall|q: u32, a: char, d: u32|
                    final(self).has_edge(q, a, d) <==> (old(self).has_edge(q, a, d) && q != last
                        && d != last)
                &&& sorted_strict(old(self).accept_states@) ==> forall|q: u32|
                    final(self).is_accept(q) <==> (old(self).is_accept(q) && q != last)
            },
    {
        if self.num_states <= 1 {
            return;
        }
        let last = self.num_states - 1;
        let kept = crate::util::edges_avoiding_state(&self.transitions, last);
        self.transitions = kept;
        if crate::util::is_sorted_strict(&self.accept_states) {
            crate::util::remove_sorted(&mut self.accept_states, last);
        }
        self.num_states = last;
        proof {
            if old(self).wf() {
                assert forall|i: int| 0 <= i < self.transitions@.len() implies {
                    let t = #[trigger] self.transitions@[i];
                    t.0 < self.num_states && t.2 < self.num_states && self.alphabet@.contains(t.1)
                } by {
                    let t = self.transitions@[i];
                    assert(self.transitions@.contains(t));
                    let j = choose|j: int|
                        0 <= j < old(self).transitions@.len() && old(self).transitions@[j] == t;
                }
                assert forall|i: int| 0 <= i < self.accept_states@.len() implies #[trigger] self.accept_states@[i]
                    < self.num_states by {
                    let q = self.accept_states@[i];
                    assert(self.accept_states@.contains(q));
                    let j = choose|j: int|
                        0 <= j < old(self).accept_states@.len() && old(self).accept_states@[j] == q;
                }
            }
        }
    }

    /// Marks `state` as accepting; a number that is not a state is ignored.
    fn add_accept_state(&mut self, state: u32)
        ensures
            old(self).wf() ==> final(self).wf(),
            final(self).num_states == old(self).num_states,
            final(self).alphabet@ == old(self).alphabet@,
            final(self).transitions@ == old(self).transitions@,
            sorted_strict(old(self).accept_states@) ==> forall|q: u32|
                final(self).is_accept(q) <==> (old(self).is_accept(q) || (q == state && state
                    < old(self).num_states)),
    {
        if state < self.num_states && crate::util::is_sorted_strict(&self.accept_states) {
            crate::util::insert_sorted(&mut self.accept_states, state);
            proof {
                if old(self).wf() {
                    assert forall|i: int| 0 <= i < self.accept_states@.len() implies #[trigger] self.accept_states@[i]
                        < self.num_states by {
                        let q = self.accept_states@[i];
                        assert(self.accept_states@.contains(q));
                        if q != state {
                            let j = choose|j: int|
                                0 <= j < old(self).accept_states@.len() && old(self).accept_states@[j] == q;
                        }
                    }
                }
            }
        }
    }

    /// Makes `target` non-accepting.
    fn remove_accept_state(&mut self, target: u32)
        ensures
            old(self).wf() ==> final(self).wf(),
            final(self).num_states == old(self).num_states,
            final(self).alphabet@ == old(self).alphabet@,
            final(self).transitions@ == old(self).transitions@,
            sorted_strict(old(self).accept_states@) ==> forall|q: u32|
                final(self).is_accept(q) <==> (old(self).is_accept(q) && q != target),
    {
        if crate::util::is_sorted_strict(&self.accept_states) {
            crate::util::remove_sorted(&mut self.accept_states, target);
            proof {
                if old(self).wf() {
                    assert forall|i: int| 0 <= i < self.accept_states@.len() implies #[trigger] self.accept_states@[i]
                        < self.num_states by {
                        let q = self.accept_states@[i];
                        assert(self.accept_states@.contains(q));
                        let j = choose|j: int|
                            0 <= j < old(self).accept_states@.len() && old(self).accept_states@[j] == q;
                    }
                }
            }
        }
    }
}

impl Alphabet for Nfa {
    /// Appends `symbol` to the alphabet unless it is there already.
    fn add_symbol(&mut self, symbol: char)
        ensures
            old(self).wf() ==> final(self).wf(),
            final(self).num_states == old(self).num_states,
            final(self).alphabet@ == if old(self).alphabet@.contains(symbol) {
                old(self).alphabet@
            } else {
                old(self).alphabet@.push(symbol)
            },
            final(self).transitions@ == old(self).transitions@,
            final(self).accept_states@ == old(self).accept_states@,
    {
        if !vec_contains_char(&self.alphabet, symbol) {
            self.alphabet.push(symbol);
            proof {
                if old(self).wf() {
                    assert forall|i: int| 0 <= i < self.transitions@.len() implies {
                        let t = #[trigger] self.transitions@[i];
                        t.0 < self.num_states && t.2 < self.num_states && self.alphabet@.contains(t.1)
                    } by {
                        let t = self.transitions@[i];
                        assert(old(self).alphabet@.contains(t.1));
                        let j = choose|j: int| 0 <= j < old(self).alphabet@.len() && old(self).alphabet@[j] == t.1;
                        assert(self.alphabet@[j] == t.1);
                    }
                    assert(self.alphabet@[old(self).alphabet@.len() as int] == symbol);
                    let k = choose|k: int| 0 <= k < old(self).alphabet@.len() && old(self).alphabet@[k] == EMPTY_STRING;
                    assert(self.alphabet@[k] == EMPTY_STRING);
                }
            }
        }
    }

    /// Removes `symbol` from the alphabet, with the transitions on it. The
    /// empty-word marker stays: every automaton of this kind has it.
    fn remove_symbol(&mut self, symbol: char)
        ensures
            old(self).wf() ==> final(self).wf(),
            final(self).num_states == old(self).num_states,
            symbol == EMPTY_STRING ==> *final(self) == *old(self),
            symbol != EMPTY_STRING ==> {
                &&& final(self).alphabet@ == without_symbol(old(self).alphabet@, symbol)
                &&& forall|q: u32, a: char, d: u32|
                    final(self).has_edge(q, a, d) <==> (old(self).has_edge(q, a, d) && a != symbol)
            },
            final(self).accept_states@ == old(self).accept_states@,
    {
        if symbol == EMPTY_STRING {
            return;
        }
        self.alphabet = crate::util::chars_without(&self.alphabet, symbol);
        self.transitions = crate::util::edges_avoiding_symbol(&self.transitions, symbol);
        proof {
            if old(self).wf() {
                assert forall|i: int| 0 <= i < self.transitions@.len() implies {
                    let t = #[trigger] self.transitions@[i];
                    t.0 < self.num_states && t.2 < self.num_states && self.alphabet@.contains(t.1)
                } by {
                    let t = self.transitions@[i];
                    assert(self.transitions@.contains(t));
                    let j = choose|j: int|
                        0 <= j < old(self).transitions@.len() && old(self).transitions@[j] == t;
                }
            }
        }
    }
}

impl Transition for Nfa {
    /// Adds the transition from `source.0` on `source.1` to `target`.
    fn add_transition(&mut self, source: &(u32, char), target: u32) -> (r: Result<(), Error>)
        ensures
            old(self).wf() ==> final(self).wf(),
            source.0 >= old(self).num_states ==> r == Err::<(), Error>(Error::InvalidState),
            source.0 < old(self).num_states && !old(self).alphabet@.contains(source.1) ==> r
                == Err::<(), Error>(Error::InvalidSymbol),
            source.0 < old(self).num_states && old(self).alphabet@.contains(source.1) && target
                >= old(self).num_states ==> r == Err::<(), Error>(Error::InvalidTarget),
            r is Err ==> *final(self) == *old(self),
            r is Ok ==> {
                &&& final(self).num_states == old(self).num_states
                &&& final(self).alphabet@ == old(self).alphabet@
                &&& final(self).accept_states@ == old(self).accept_states@
                &&& forall|q: u32, a: char, d: u32|
                    final(self).has_edge(q, a, d) <==> (old(self).has_edge(q, a, d) || (q, a, d)
                        == (source.0, source.1, target))
                &&& final(self).transitions@ == if old(self).transitions@.contains((source.0, source.1, target)) {
                    old(self).transitions@
                } else {
                    old(self).transitions@.push((source.0, source.1, target))
                }
            },
            (source.0 < old(self).num_states && old(self).alphabet@.contains(source.1) && target
                < old(self).num_states) ==> r is Ok,
    {
        if source.0 >= self.num_states {
            return Err(Error::InvalidState);
        }
        if !vec_contains_char(&self.alphabet, source.1) {
            return Err(Error::InvalidSymbol);
        }
        if target >= self.num_states {
            return Err(Error::InvalidTarget);
        }
        let t = (source.0, source.1, target);
        if !crate::util::vec_contains_edge(&self.transitions, t) {
            self.transitions.push(t);
            proof {
                assert forall|q: u32, a: char, d: u32|
                    self.has_edge(q, a, d) <==> (old(self).has_edge(q, a, d) || (q, a, d) == t) by {
                    if self.has_edge(q, a, d) && (q, a, d) != t {
                        let j = choose|j: int| 0 <= j < self.transitions@.len() && self.transitions@[j] == (q, a, d);
                        assert(old(self).transitions@[j] == (q, a, d));
                    }
                    if old(self).has_edge(q, a, d) {
                        let j = choose|j: int| 0 <= j < old(self).transitions@.len() && old(self).transitions@[j] == (q, a, d);
                        assert(self.transitions@[j] == (q, a, d));
                    }
                    if (q, a, d) == t {
                        assert(self.transitions@[old(self).transitions@.len() as int] == t);
                    }
                }
            }
        }
        Ok(())
    }
}

impl StateIter for Nfa {
    /// True when the start state is the only state.
    fn is_empty(&self) -> (r: bool)
        ensures
            r == (self.num_states == 1),
    {
        self.num_states == 1
    }

    /// The states `0..num_states`.
    fn states(&self) -> (r: Vec<u32>)
        ensures
            r@ == Seq::new(self.num_states as nat, |i: int| i as u32),
    {
        crate::util::range_vec(self.num_states)
    }

    /// The accept states, in increasing order.
    fn accept_states(&self) -> (r: Vec<u32>)
        ensures
            r@ == self.accept_states@,
    {
        self.accept_states.clone()
    }
}

impl AlphabetIter for Nfa {
    fn alphabet(&self) -> (r: Vec<char>)
        ensures
            r@ == self.alphabet@,
    {
        self.alphabet.clone()
    }
}

/// Each transition of `e` with both states moved up by `k`.
pub open spec fn shift_edges(e: Seq<(u32, char, u32)>, k: int) -> Seq<(u32, char, u32)> {
    e.map_values(|t: (u32, char, u32)| ((t.0 + k) as u32, t.1, (t.2 + k) as u32))
}

/// Each state of `s` moved up by `k`.
pub open spec fn shift_states(s: Seq<u32>, k: int) -> Seq<u32> {
    s.map_values(|q: u32| (q + k) as u32)
}

/// `a` followed by the symbols of `b` that it lacks, in the order of `b`.
pub open spec fn merge_alphabet(a: Seq<char>, b: Seq<char>) -> Seq<char>
    decreases b.len(),
{
    if b.len() == 0 {
        a
    } else {
        let m = merge_alphabet(a, b.drop_last());
        if m.contains(b.last()) {
            m
        } else {
            m.push(b.last())
        }
    }
}

/// The transitions on `symbol` from each of `from` to `target`.
pub open spec fn links_to(from: Seq<u32>, symbol: char, target: u32) -> Seq<(u32, char, u32)> {
    from.map_values(|a: u32| (a, symbol, target))
}

/// Appends to `edges` a transition on `symbol` from each of `from` to `target`.
pub(crate) fn push_links(edges: &mut Vec<(u32, char, u32)>, from: &Vec<u32>, symbol: char, target: u32)
    ensures
        final(edges)@ == old(edges)@ + links_to(from@, symbol, target),
{
    let mut i: usize = 0;
    while i < from.len()
        invariant
            i <= from.len(),
            edges@ == old(edges)@ + links_to(from@.take(i as int), symbol, target),
        decreases from.len() - i,
    {
        edges.push((from[i], symbol, target));
        i = i + 1;
        assert(edges@ =~= old(edges)@ + links_to(from@.take(i as int), symbol, target));
    }
    assert(from@.take(i as int) =~= from@);
}

/// A symbol is in the merged alphabet exactly when it is in one of the two.
pub proof fn lemma_merge_contains(a: Seq<char>, b: Seq<char>)
    ensures
        forall|c: char| #[trigger] merge_alphabet(a, b).contains(c) <==> (a.contains(c) || b.contains(c)),
    decreases b.len(),
{
    if b.len() > 0 {
        lemma_merge_contains(a, b.drop_last());
        let m = merge_alphabet(a, b.drop_last());
        assert forall|c: char| #[trigger] merge_alphabet(a, b).contains(c) <==> (a.contains(c) || b.contains(c)) by {
            assert(b.drop_last().contains(c) ==> b.contains(c)) by {
                if b.drop_last().contains(c) {
                    let k = choose|k: int| 0 <= k < b.drop_last().len() && b.drop_last()[k] == c;
                    assert(b[k] == c);
                }
            }
            assert(b.contains(c) ==> (b.drop_last().contains(c) || c == b.last())) by {
                if b.contains(c) {
                    let k = choose|k: int| 0 <= k < b.len() && b[k] == c;
                    if k < b.len() - 1 {
                        assert(b.drop_last()[k] == c);
                    }
                }
            }
            if !m.contains(b.last()) {
                assert(m.push(b.last())[m.len() as int] == b.last());
                if m.push(b.last()).contains(c) && c != b.last() {
                    let k = choose|k: int| 0 <= k < m.len() + 1 && m.push(b.last())[k] == c;
                    assert(m[k] == c);
                }
                if m.contains(c) {
                    let k = choose|k: int| 0 <= k < m.len() && m[k] == c;
                    assert(m.push(b.last())[k] == c);
                }
            }
        }
    }
}

impl Nfa {
    /// Appends a new state reached on `symbol` from every accept state (or
    /// from the last state, where there is none); the new state becomes the
    /// only accept state.
    pub(crate) fn push_symbol(&mut self, symbol: char) -> (r: Result<(), Error>)
        requires
            old(self).wf(),
            old(self).num_states < u32::MAX,
        ensures
            final(self).wf(),
            !old(self).alphabet@.contains(symbol) ==> r == Err::<(), Error>(Error::InvalidSymbol)
                && *final(self) == *old(self),
            old(self).alphabet@.contains(symbol) ==> {
                &&& r is Ok
                &&& final(self).num_states == old(self).num_states + 1
                &&& final(self).alphabet@ == old(self).alphabet@
                &&& final(self).transitions@ == old(self).transitions@ + if old(
                    self,
                ).accept_states@.len() == 0 {
                    seq![((old(self).num_states - 1) as u32, symbol, old(self).num_states)]
                } else {
                    links_to(old(self).accept_states@, symbol, old(self).num_states)
                }
                &&& final(self).accept_states@ == seq![old(self).num_states]
            },
    {
        if !vec_contains_char(&self.alphabet, symbol) {
            return Err(Error::InvalidSymbol);
        }
        let prev_last = self.last_added_state();
        let new_last = prev_last + 1;
        if self.accept_states.len() == 0 {
            self.transitions.push((prev_last, symbol, new_last));
        } else {
            let accept_states = self.accept_states.clone();
            push_links(&mut self.transitions, &accept_states, symbol, new_last);
        }
        self.accept_states = vec![new_last];
        self.num_states = new_last + 1;
        proof {
            let a = old(self).transitions@.len() as int;
            assert forall|k: int| 0 <= k < self.transitions@.len() implies {
                let t = #[trigger] self.transitions@[k];
                t.0 < self.num_states && t.2 < self.num_states && self.alphabet@.contains(t.1)
            } by {
                if k < a {
                    assert(old(self).transitions@[k] == self.transitions@[k]);
                } else if old(self).accept_states@.len() != 0 {
                    assert(old(self).accept_states@[k - a] < old(self).num_states);
                }
            }
            assert(self.accept_states@ =~= seq![old(self).num_states]);
        }
        Ok(())
    }

    /// Renames every state `q` to `q + increment`; the states below
    /// `increment` are new and have no transitions.
    pub(crate) fn increment_states(&mut self, increment: u32)
        requires
            old(self).wf(),
            old(self).num_states + increment <= u32::MAX,
        ensures
            final(self).wf(),
            final(self).num_states == old(self).num_states + increment,
            final(self).alphabet@ == old(self).alphabet@,
            final(self).transitions@ == shift_edges(old(self).transitions@, increment as int),
            final(self).accept_states@ == shift_states(old(self).accept_states@, increment as int),
    {
        let mut tr: Vec<(u32, char, u32)> = Vec::new();
        let mut i: usize = 0;
        while i < self.transitions.len()
            invariant
                self.wf(),
                self.num_states + increment <= u32::MAX,
                i <= self.transitions.len(),
                tr@ == shift_edges(self.transitions@.take(i as int), increment as int),
            decreases self.transitions.len() - i,
        {
            let t = self.transitions[i];
            assert(self.transitions@[i as int] == t);
            tr.push((t.0 + increment, t.1, t.2 + increment));
            i = i + 1;
            assert(tr@ =~= shift_edges(self.transitions@.take(i as int), increment as int));
        }
        assert(self.transitions@.take(i as int) =~= self.transitions@);
        let mut acc: Vec<u32> = Vec::new();
        let mut j: usize = 0;
        while j < self.accept_states.len()
            invariant
                self.wf(),
                self.num_states + increment <= u32::MAX,
                j <= self.accept_states.len(),
                acc@ == shift_states(self.accept_states@.take(j as int), increment as int),
            decreases self.accept_states.len() - j,
        {
            let q = self.accept_states[j];
            assert(self.accept_states@[j as int] == q);
            acc.push(q + increment);
            j = j + 1;
            assert(acc@ =~= shift_states(self.accept_states@.take(j as int), increment as int));
        }
        assert(self.accept_states@.take(j as int) =~= self.accept_states@);
        self.transitions = tr;
        self.accept_states = acc;
        self.num_states = self.num_states + increment;
        proof {
            assert forall|k: int| 0 <= k < self.transitions@.len() implies {
                let t = #[trigger] self.transitions@[k];
                t.0 < self.num_states && t.2 < self.num_states && self.alphabet@.contains(t.1)
            } by {
                assert(old(self).transitions@[k].0 < old(self).num_states);
                assert(old(self).alphabet@.contains(old(self).transitions@[k].1));
            }
            assert forall|a: int, b: int| 0 <= a < b < self.accept_states@.len() implies self.accept_states@[a]
                < self.accept_states@[b] by {
                assert(old(self).accept_states@[a] < old(self).accept_states@[b]);
            }
            assert forall|k: int| 0 <= k < self.accept_states@.len() implies #[trigger] self.accept_states@[k]
                < self.num_states by {
                assert(old(self).accept_states@[k] < old(self).num_states);
            }
        }
    }

    /// Adds to the alphabet the symbols of `other` that it lacks.
    pub(crate) fn merge_alphabet_from(&mut self, other: &Vec<char>)
        requires
            old(self).wf(),
        ensures
            final(self).wf(),
            final(self).num_states == old(self).num_states,
            final(self).alphabet@ == merge_alphabet(old(self).alphabet@, other@),
            forall|c: char| final(self).alphabet@.contains(c) <==> (old(self).alphabet@.contains(c)
                || other@.contains(c)),
            final(self).transitions@ == old(self).transitions@,
            final(self).accept_states@ == old(self).accept_states@,
    {
        let mut i: usize = 0;
        while i < other.len()
            invariant
                self.wf(),
                i <= other.len(),
                self.num_states == old(self).num_states,
                self.transitions@ == old(self).transitions@,
                self.accept_states@ == old(self).accept_states@,
                self.alphabet@ == merge_alphabet(old(self).alphabet@, other@.take(i as int)),
                forall|c: char| self.alphabet@.contains(c) <==> (old(self).alphabet@.contains(c)
                    || other@.take(i as int).contains(c)),
            decreases other.len() - i,
        {
            proof {
                assert(other@.take(i as int + 1).drop_last() =~= other@.take(i as int));
                assert(other@.take(i as int + 1).last() == other@[i as int]);
                assert forall|c: char| other@.take(i as int + 1).contains(c) <==> (other@.take(i as int).contains(c) || c == other@[i as int]) by {
                    if other@.take(i as int + 1).contains(c) {
                        let j = choose|j: int| 0 <= j < i + 1 && #[trigger] other@.take(i as int + 1)[j] == c;
                        if j < i {
                            assert(other@.take(i as int)[j] == c);
                        }
                    }
                    if other@.take(i as int).contains(c) {
                        let j = choose|j: int| 0 <= j < i && #[trigger] other@.take(i as int)[j] == c;
                        assert(other@.take(i as int + 1)[j] == c);
                    }
                    if c == other@[i as int] {
                        assert(other@.take(i as int + 1)[i as int] == c);
                    }
                }
            }
            let c = other[i];
            let ghost prev = self.alphabet@;
            self.add_symbol(c);
            proof {
                assert forall|x: char| self.alphabet@.contains(x) <==> (prev.contains(x) || x == c) by {
                    if !prev.contains(c) {
                        if self.alphabet@.contains(x) {
                            let k = choose|k: int| 0 <= k < self.alphabet@.len() && self.alphabet@[k] == x;
                            if k < prev.len() {
                                assert(prev[k] == x);
                            }
                        }
                        if prev.contains(x) {
                            let k = choose|k: int| 0 <= k < prev.len() && prev[k] == x;
                            assert(self.alphabet@[k] == x);
                        }
                        if x == c {
                            assert(self.alphabet@[prev.len() as int] == c);
                        }
                    }
                }
            }
            let ghost prev_take = other@.take(i as int);
            i = i + 1;
            proof {
                assert forall|x: char| self.alphabet@.contains(x) <==> (old(self).alphabet@.contains(x)
                    || other@.take(i as int).contains(x)) by {
                    assert(self.alphabet@.contains(x) <==> (prev.contains(x) || x == c));
                    assert(other@.take(i as int).contains(x) <==> (prev_take.contains(x) || x == c));
                    assert(prev.contains(x) <==> (old(self).alphabet@.contains(x) || prev_take.contains(x)));
                }
            }
        }
        assert(other@.take(other.len() as int) =~= other@);
    }
}

/// How a frame of the parser's stack is folded into the frame below it.
#[derive(Clone, Copy, PartialEq, Eq, Structural)]
pub enum Frame {
    Union,
    Bracket,
    Concat,
    Finished,
}


/// The parts of an automaton that its behaviour depends on.
pub struct NfaModel {
    pub num_states: u32,
    pub alphabet: Seq<char>,
    pub transitions: Seq<(u32, char, u32)>,
    pub accept_states: Seq<u32>,
}

impl Nfa {
    pub open spec fn model(&self) -> NfaModel {
        NfaModel {
            num_states: self.num_states,
            alphabet: self.alphabet@,
            transitions: self.transitions@,
            accept_states: self.accept_states@,
        }
    }
}

/// The automaton with one state and nothing else.
pub open spec fn fresh_model() -> NfaModel {
    NfaModel {
        num_states: 1,
        alphabet: seq![EMPTY_STRING],
        transitions: Seq::empty(),
        accept_states: Seq::empty(),
    }
}

/// The two-state automaton of the symbol `c`.
pub open spec fn symbol_model(c: char) -> NfaModel {
    NfaModel {
        num_states: 2,
        alphabet: if c == EMPTY_STRING {
            seq![EMPTY_STRING]
        } else {
            seq![EMPTY_STRING, c]
        },
        transitions: seq![(0u32, c, 1u32)],
        accept_states: seq![1u32],
    }
}

/// The concatenation of `a` and `b`, as `operators::concat` builds it.
pub open spec fn concat_model(a: NfaModel, b: NfaModel) -> NfaModel {
    NfaModel {
        num_states: (a.num_states + b.num_states) as u32,
        alphabet: merge_alphabet(a.alphabet, b.alphabet),
        transitions: a.transitions + shift_edges(b.transitions, a.num_states as int) + if a.accept_states.len()
            == 0 {
            seq![((a.num_states - 1) as u32, EMPTY_STRING, a.num_states)]
        } else {
            links_to(a.accept_states, EMPTY_STRING, a.num_states)
        },
        accept_states: shift_states(b.accept_states, a.num_states as int),
    }
}

/// The union of `a` and `b`, as `operators::union` builds it.
pub open spec fn union_model(a: NfaModel, b: NfaModel) -> NfaModel {
    NfaModel {
        num_states: (a.num_states + b.num_states + 1) as u32,
        alphabet: merge_alphabet(a.alphabet, b.alphabet),
        transitions: shift_edges(a.transitions, 1) + shift_edges(b.transitions, a.num_states + 1) + seq![
            (0u32, EMPTY_STRING, 1u32),
            (0u32, EMPTY_STRING, (a.num_states + 1) as u32),
        ],
        accept_states: shift_states(a.accept_states, 1) + shift_states(b.accept_states, a.num_states + 1),
    }
}

/// The Kleene star of `a`, as `operators::kleene_star` builds it.
pub open spec fn star_model(a: NfaModel) -> NfaModel {
    let acc = seq![0u32] + shift_states(a.accept_states, 1);
    NfaModel {
        num_states: (a.num_states + 1) as u32,
        alphabet: a.alphabet,
        transitions: shift_edges(a.transitions, 1) + links_to(acc, EMPTY_STRING, 1),
        accept_states: acc,
    }
}

/// The models of the frames of a parser stack.
pub open spec fn models(s: Seq<(Nfa, Frame)>) -> Seq<(NfaModel, Frame)> {
    s.map_values(|x: (Nfa, Frame)| (x.0.model(), x.1))
}

/// The frame holds nothing yet.
pub open spec fn is_fresh(m: NfaModel) -> bool {
    m.num_states == 1 && m.transitions.len() == 0 && m.accept_states.len() == 0
}

/// Folds the top frame into the one below it: by union for a union frame,
/// by concatenation otherwise.
pub open spec fn fold_top(s: Seq<(NfaModel, Frame)>) -> Seq<(NfaModel, Frame)> {
    let last = s.last();
    let parent = s[s.len() - 2];
    let rest = s.drop_last().drop_last();
    if last.1 == Frame::Union {
        rest.push((union_model(parent.0, last.0), parent.1))
    } else {
        rest.push((concat_model(parent.0, last.0), parent.1))
    }
}

/// What `)` does: frames are folded down to the innermost open group, which
/// becomes the frame below it where that holds nothing yet, and a frame of
/// its own otherwise.
pub open spec fn close_group(s: Seq<(NfaModel, Frame)>) -> Seq<(NfaModel, Frame)>
    decreases s.len(),
{
    if s.len() < 2 || s.last().1 == Frame::Finished {
        s
    } else if s.last().1 == Frame::Bracket {
        let parent = s[s.len() - 2];
        if is_fresh(parent.0) {
            s.drop_last().drop_last().push((concat_model(parent.0, s.last().0), parent.1))
        } else {
            s.drop_last().push((s.last().0, Frame::Concat))
        }
    } else {
        close_group(fold_top(s))
    }
}

/// Folds the pending concatenations on top of the stack.
pub open spec fn fold_concats(s: Seq<(NfaModel, Frame)>) -> Seq<(NfaModel, Frame)>
    decreases s.len(),
{
    if s.len() >= 2 && s.last().1 == Frame::Concat {
        fold_concats(fold_top(s))
    } else {
        s
    }
}

/// The parser's stack after reading `c`.
pub open spec fn parse_step(s: Seq<(NfaModel, Frame)>, c: char) -> Seq<(NfaModel, Frame)> {
    if c == '(' {
        s.push((fresh_model(), Frame::Bracket))
    } else if c == ')' {
        close_group(s)
    } else if c == '*' {
        if s.len() == 0 {
            s
        } else {
            s.drop_last().push((star_model(s.last().0), s.last().1))
        }
    } else if c == '|' {
        fold_concats(s).push((fresh_model(), Frame::Union))
    } else {
        s.push((symbol_model(c), Frame::Concat))
    }
}

/// The parser's stack after reading the first `i` characters of `p`.
pub open spec fn parse_frames(p: Seq<char>, i: nat) -> Seq<(NfaModel, Frame)>
    decreases i,
{
    if i == 0 {
        seq![(fresh_model(), Frame::Finished)]
    } else {
        parse_step(parse_frames(p, (i - 1) as nat), p[i - 1])
    }
}

/// Folds every frame into the bottom one.
pub open spec fn drain(s: Seq<(NfaModel, Frame)>) -> NfaModel
    decreases s.len(),
{
    if s.len() < 2 || s.last().1 == Frame::Finished {
        s.last().0
    } else {
        drain(fold_top(s))
    }
}

/// The Thompson automaton of the pattern `p`: the characters are read left
/// to right over a stack of frames, then the frames are folded together.
pub open spec fn thompson(p: Seq<char>) -> NfaModel {
    drain(parse_frames(p, p.len()))
}

proof fn lemma_models_push(s: Seq<(Nfa, Frame)>, x: (Nfa, Frame))
    ensures
        models(s.push(x)) == models(s).push((x.0.model(), x.1)),
        models(s).len() == s.len(),
{
    assert(models(s.push(x)) =~= models(s).push((x.0.model(), x.1)));
}

proof fn lemma_models_pop(s: Seq<(Nfa, Frame)>)
    requires
        s.len() >= 1,
    ensures
        models(s.drop_last()) == models(s).drop_last(),
        models(s).last() == (s.last().0.model(), s.last().1),
{
    assert(models(s.drop_last()) =~= models(s).drop_last());
}

/// The number of open parentheses on a parser stack.
spec fn brackets(s: Seq<(Nfa, Frame)>) -> int
    decreases s.len(),
{
    if s.len() == 0 {
        0
    } else {
        brackets(s.drop_last()) + if s.last().1 == Frame::Bracket {
            1int
        } else {
            0int
        }
    }
}

/// The states on a parser stack, with one more for each pending union.
spec fn weight(s: Seq<(Nfa, Frame)>) -> int
    decreases s.len(),
{
    if s.len() == 0 {
        0
    } else {
        weight(s.drop_last()) + s.last().0.num_states + if s.last().1 == Frame::Union {
            1int
        } else {
            0int
        }
    }
}

/// The symbols that `s` uses as literals: all but the four operators.
pub open spec fn literals(s: Seq<char>) -> Set<char> {
    Set::new(|c: char| s.contains(c) && c != '(' && c != ')' && c != '|' && c != '*')
}

/// The symbols of the automata on a parser stack.
spec fn frame_symbols(s: Seq<(Nfa, Frame)>) -> Set<char>
    decreases s.len(),
{
    if s.len() == 0 {
        Set::empty()
    } else {
        frame_symbols(s.drop_last()).union(s.last().0.alphabet@.to_set())
    }
}

/// Reading one more character of `s` adds it to the literals unless it is
/// an operator.
proof fn lemma_literals_step(s: Seq<char>, i: int)
    requires
        0 <= i < s.len(),
    ensures
        literals(s.take(i + 1)) == if s[i] == '(' || s[i] == ')' || s[i] == '|' || s[i] == '*' {
            literals(s.take(i))
        } else {
            literals(s.take(i)).insert(s[i])
        },
{
    let a = s.take(i);
    let b = s.take(i + 1);
    assert forall|c: char| b.contains(c) <==> (a.contains(c) || c == s[i]) by {
        if b.contains(c) {
            let k = choose|k: int| 0 <= k < b.len() && b[k] == c;
            if k < i {
                assert(a[k] == c);
            }
        }
        if a.contains(c) {
            let k = choose|k: int| 0 <= k < a.len() && a[k] == c;
            assert(b[k] == c);
        }
        if c == s[i] {
            assert(b[i] == c);
        }
    }
    if s[i] == '(' || s[i] == ')' || s[i] == '|' || s[i] == '*' {
        assert(literals(b) =~= literals(a));
    } else {
        assert(literals(b) =~= literals(a).insert(s[i]));
    }
}

proof fn lemma_push_symbols(s: Seq<(Nfa, Frame)>, x: (Nfa, Frame))
    ensures
        frame_symbols(s.push(x)) == frame_symbols(s).union(x.0.alphabet@.to_set()),
{
    lemma_push(s, x);
}

/// Folding the top frame into the one below, into an automaton whose
/// symbols are those of both, keeps the symbols of the stack.
proof fn lemma_fold_symbols(s0: Seq<(Nfa, Frame)>, merged: (Nfa, Frame))
    requires
        s0.len() >= 2,
        forall|c: char|
            merged.0.alphabet@.contains(c) <==> (s0[s0.len() - 2].0.alphabet@.contains(c) || s0[s0.len()
                - 1].0.alphabet@.contains(c)),
    ensures
        frame_symbols(s0.drop_last().drop_last().push(merged)) == frame_symbols(s0),
{
    let s2 = s0.drop_last().drop_last();
    lemma_push(s2, merged);
    assert(s0.drop_last().last() == s0[s0.len() - 2]);
    assert(s0.last() == s0[s0.len() - 1]);
    let a = s0[s0.len() - 2].0.alphabet@.to_set();
    let b = s0[s0.len() - 1].0.alphabet@.to_set();
    assert(merged.0.alphabet@.to_set() =~= a.union(b));
    assert(frame_symbols(s0.drop_last()) == frame_symbols(s2).union(a));
    assert(frame_symbols(s0) == frame_symbols(s0.drop_last()).union(b));
    assert(frame_symbols(s2.push(merged)) == frame_symbols(s2).union(a.union(b)));
    assert(frame_symbols(s2.push(merged)) =~= frame_symbols(s0));
}

/// Replacing the top frame by one with the same alphabet keeps the symbols
/// of the stack.
proof fn lemma_replace_top_symbols(s0: Seq<(Nfa, Frame)>, x: (Nfa, Frame))
    requires
        s0.len() >= 1,
        x.0.alphabet@ == s0.last().0.alphabet@,
    ensures
        frame_symbols(s0.drop_last().push(x)) == frame_symbols(s0),
{
    lemma_push(s0.drop_last(), x);
}

/// The symbols of `seq![ε]` and of `seq![ε, c]`.
proof fn lemma_fresh_symbols(c: char)
    ensures
        seq![EMPTY_STRING].to_set() == set![EMPTY_STRING],
        seq![EMPTY_STRING].push(c).to_set() == set![EMPTY_STRING, c],
{
    assert(seq![EMPTY_STRING][0] == EMPTY_STRING);
    assert(seq![EMPTY_STRING].to_set() =~= set![EMPTY_STRING]);
    let t = seq![EMPTY_STRING].push(c);
    assert(t[0] == EMPTY_STRING && t[1] == c);
    assert(t.to_set() =~= set![EMPTY_STRING, c]);
}

/// The shape of the parser's stack: the finished frame at the bottom and only
/// there, every automaton well formed.
spec fn stack_ok(s: Seq<(Nfa, Frame)>) -> bool {
    &&& s.len() >= 1
    &&& s[0].1 == Frame::Finished
    &&& forall|k: int| 1 <= k < s.len() ==> (#[trigger] s[k]).1 != Frame::Finished
    &&& forall|k: int| 0 <= k < s.len() ==> (#[trigger] s[k]).0.wf()
}

proof fn lemma_stack_facts(s: Seq<(Nfa, Frame)>)
    ensures
        brackets(s) >= 0,
        s.len() > 0 ==> weight(s) >= weight(s.drop_last()) + s.last().0.num_states,
        s.len() > 0 ==> weight(s.drop_last()) >= 0,
        weight(s) >= 0,
    decreases s.len(),
{
    if s.len() > 0 {
        lemma_stack_facts(s.drop_last());
    }
}

proof fn lemma_push(s: Seq<(Nfa, Frame)>, x: (Nfa, Frame))
    ensures
        s.push(x).drop_last() == s,
        s.push(x).last() == x,
{
    assert(s.push(x).drop_last() =~= s);
}

impl Nfa {
    /// Builds the automaton of a regular expression: symbols, concatenation,
    /// `|`, postfix `*` (binding to the symbol or group before it) and
    /// parentheses, by a left-to-right scan over a stack of frames. Fails with
    /// `MalformedRegex` exactly when the validator rejects the expression;
    /// otherwise the automaton is `thompson` of the expression.
    pub fn from(expression: &str) -> (r: Result<Nfa, Error>)
        requires
            expression@.len() <= 0x7fff_fffe,
        ensures
            r is Ok <==> is_valid_regex(expression@),
            r is Err ==> r == Err::<Nfa, Error>(Error::MalformedRegex),
            r matches Ok(nfa) ==> nfa.wf(),
            r matches Ok(nfa) ==> forall|c: char|
                nfa.alphabet@.contains(c) <==> (c == EMPTY_STRING || #[trigger] literals(expression@).contains(c)),
            r matches Ok(nfa) ==> nfa.model() == thompson(expression@),
    {
        match crate::util::check_for_correctness(expression) {
            Ok(()) => {},
            Err(e) => {
                return Err(e);
            },
        }
        let chars = crate::util::chars_of(expression);
        let n = chars.len();
        let mut stack: Vec<(Nfa, Frame)> = Vec::new();
        stack.push((Nfa::new(), Frame::Finished));
        proof {
            assert(stack@.drop_last() =~= Seq::<(Nfa, Frame)>::empty());
            assert(brackets(stack@.drop_last()) == 0);
            assert(weight(stack@.drop_last()) == 0);
            assert(chars@.take(0) =~= Seq::<char>::empty());
            assert(paren_depth(chars@.take(0)) == 0);
            lemma_fresh_symbols(EMPTY_STRING);
            assert(frame_symbols(stack@.drop_last()) == Set::<char>::empty());
            assert(literals(chars@.take(0)) =~= Set::<char>::empty());
            assert(frame_symbols(stack@) =~= literals(chars@.take(0)).insert(EMPTY_STRING));
            let m0 = stack@[0].0;
            assert(m0.transitions@ =~= Seq::<(u32, char, u32)>::empty());
            assert(m0.accept_states@ =~= Seq::<u32>::empty());
            assert(m0.model() == fresh_model());
            assert(models(stack@) =~= parse_frames(chars@, 0));
        }
        let mut i: usize = 0;
        while i < n
            invariant
                n == chars@.len() <= 0x7fff_fffe,
                chars@ == expression@,
                is_valid_regex(chars@),
                i <= n,
                stack_ok(stack@),
                brackets(stack@) == paren_depth(chars@.take(i as int)),
                weight(stack@) <= 2 * i + 1,
                frame_symbols(stack@) == literals(chars@.take(i as int)).insert(EMPTY_STRING),
                models(stack@) == parse_frames(chars@, i as nat),
            decreases n - i,
        {
            let ghost pre = models(stack@);
            proof {
                lemma_depth_step(chars@, i as int);
                lemma_literals_step(chars@, i as int);
                assert(paren_depth(chars@.take(i as int + 1)) >= 0);
            }
            let token = chars[i];
            if token == '(' {
                let fresh = Nfa::new();
                let ghost s0 = stack@;
                stack.push((fresh, Frame::Bracket));
                proof {
                    lemma_push(s0, (fresh, Frame::Bracket));
                    lemma_push_symbols(s0, (fresh, Frame::Bracket));
                    lemma_models_push(s0, (fresh, Frame::Bracket));
                    assert(fresh.transitions@ =~= Seq::<(u32, char, u32)>::empty());
                    assert(fresh.accept_states@ =~= Seq::<u32>::empty());
                    assert(fresh.model() == fresh_model());
                    lemma_fresh_symbols(EMPTY_STRING);
                    assert(frame_symbols(stack@) =~= frame_symbols(s0));
                }
            } else if token == ')' {
                loop
                    invariant_except_break
                        brackets(stack@) == paren_depth(chars@.take(i as int)) >= 1,
                        close_group(models(stack@)) == close_group(pre),
                    invariant
                        n == chars@.len() <= 0x7fff_fffe,
                        i < n,
                        stack_ok(stack@),
                        weight(stack@) <= 2 * i + 1,
                        frame_symbols(stack@) == literals(chars@.take(i as int)).insert(EMPTY_STRING),
                    ensures
                        stack_ok(stack@),
                        brackets(stack@) == paren_depth(chars@.take(i as int)) - 1,
                        weight(stack@) <= 2 * i + 1,
                        frame_symbols(stack@) == literals(chars@.take(i as int)).insert(EMPTY_STRING),
                        models(stack@) == close_group(pre),
                    decreases stack@.len(),
                {
                    let ghost s0 = stack@;
                    proof {
                        lemma_stack_facts(s0);
                        lemma_stack_facts(s0.drop_last());
                        if s0.len() == 1 {
                            assert(s0.drop_last() =~= Seq::<(Nfa, Frame)>::empty());
                        }
                    }
                    let last = match stack.pop() {
                        Some(x) => x,
                        None => {
                            return Err(Error::StructuralRegex);
                        },
                    };
                    assert(last == s0.last() && stack@ == s0.drop_last());
                    assert(s0[s0.len() - 1] == last);
                    let ghost s1 = stack@;
                    proof {
                        lemma_stack_facts(s1);
                        if s1.len() > 0 {
                            lemma_stack_facts(s1.drop_last());
                        }
                    }
                    let parent = match stack.pop() {
                        Some(x) => x,
                        None => {
                            return Err(Error::StructuralRegex);
                        },
                    };
                    assert(parent == s1.last() && stack@ == s1.drop_last());
                    assert(s0[s0.len() - 2] == parent);
                    assert(weight(s0) == weight(s1) + last.0.num_states + if last.1 == Frame::Union {
                        1int
                    } else {
                        0int
                    });
                    assert(weight(s1) == weight(stack@) + parent.0.num_states + if parent.1
                        == Frame::Union {
                        1int
                    } else {
                        0int
                    });
                    proof {
                        lemma_stack_facts(stack@);
                    }
                    let (mut parent_nfa, parent_tag) = parent;
                    let (last_nfa, last_tag) = last;
                    match last_tag {
                        Frame::Union => {
                            let _ = operators::union(&mut parent_nfa, last_nfa);
                            let ghost s2 = stack@;
                            stack.push((parent_nfa, parent_tag));
                            proof {
                                lemma_push(s2, (parent_nfa, parent_tag));
                                lemma_merge_contains(s0[s0.len() - 2].0.alphabet@, s0[s0.len() - 1].0.alphabet@);
                                lemma_fold_symbols(s0, (parent_nfa, parent_tag));
                                lemma_models_pop(s0);
                                lemma_models_pop(s0.drop_last());
                                lemma_models_push(s2, (parent_nfa, parent_tag));
                                assert(s0.drop_last().drop_last() == s2);
                                assert(models(s0)[models(s0).len() - 2] == models(s0.drop_last()).last());
                                assert(models(stack@) == fold_top(models(s0)));
                                assert forall|k: int| 0 <= k < stack@.len() implies (#[trigger] stack@[k]).0.wf() by {
                                    if k < stack@.len() - 1 {
                                        assert(stack@[k] == s0[k]);
                                    }
                                }
                                assert forall|k: int| 1 <= k < stack@.len() implies (#[trigger] stack@[k]).1 != Frame::Finished by {
                                    assert(stack@[k].1 == s0[k].1);
                                }
                            }
                        },
                        Frame::Bracket => {
                            if parent_nfa.num_states == 1 && parent_nfa.transitions.len() == 0
                                && parent_nfa.accept_states.len() == 0 {
                                // the enclosing frame holds nothing yet: the group becomes it
                                let _ = operators::concat(&mut parent_nfa, last_nfa);
                                let ghost s2 = stack@;
                                stack.push((parent_nfa, parent_tag));
                                proof {
                                    lemma_push(s2, (parent_nfa, parent_tag));
                                lemma_merge_contains(s0[s0.len() - 2].0.alphabet@, s0[s0.len() - 1].0.alphabet@);
                                lemma_fold_symbols(s0, (parent_nfa, parent_tag));
                                lemma_models_pop(s0);
                                lemma_models_pop(s0.drop_last());
                                lemma_models_push(s2, (parent_nfa, parent_tag));
                                assert(s0.drop_last().drop_last() == s2);
                                assert(models(s0)[models(s0).len() - 2] == models(s0.drop_last()).last());
                                assert(models(stack@) == fold_top(models(s0)));
                                    assert forall|k: int| 0 <= k < stack@.len() implies (#[trigger] stack@[k]).0.wf() by {
                                        if k < stack@.len() - 1 {
                                            assert(stack@[k] == s0[k]);
                                        }
                                    }
                                    assert forall|k: int| 1 <= k < stack@.len() implies (#[trigger] stack@[k]).1 != Frame::Finished by {
                                        assert(stack@[k].1 == s0[k].1);
                                    }
                                }
                            } else {
                                // the group stays a frame of its own, so that a following
                                // `*` applies to the group alone
                                let ghost s2 = stack@;
                                stack.push((parent_nfa, parent_tag));
                                let ghost s3 = stack@;
                                stack.push((last_nfa, Frame::Concat));
                                proof {
                                    lemma_push(s2, (parent_nfa, parent_tag));
                                    lemma_push(s3, (last_nfa, Frame::Concat));
                                    assert(s3 =~= s1);
                                    lemma_replace_top_symbols(s0, (last_nfa, Frame::Concat));
                                    lemma_models_pop(s0);
                                    lemma_models_pop(s0.drop_last());
                                    lemma_models_push(s2, (parent_nfa, parent_tag));
                                    lemma_models_push(s3, (last_nfa, Frame::Concat));
                                    assert(models(s0)[models(s0).len() - 2] == models(s0.drop_last()).last());
                                    assert(models(stack@) =~= models(s0).drop_last().push((last_nfa.model(), Frame::Concat)));
                                    assert forall|k: int| 0 <= k < stack@.len() implies (#[trigger] stack@[k]).0.wf() by {
                                        if k < stack@.len() - 1 {
                                            assert(stack@[k] == s0[k]);
                                        }
                                    }
                                    assert forall|k: int| 1 <= k < stack@.len() implies (#[trigger] stack@[k]).1 != Frame::Finished by {
                                        if k < stack@.len() - 1 {
                                            assert(stack@[k].1 == s0[k].1);
                                        }
                                    }
                                }
                            }
                            break;
                        },
                        Frame::Concat => {
                            let _ = operators::concat(&mut parent_nfa, last_nfa);
                            let ghost s2 = stack@;
                            stack.push((parent_nfa, parent_tag));
                            proof {
                                lemma_push(s2, (parent_nfa, parent_tag));
                                lemma_merge_contains(s0[s0.len() - 2].0.alphabet@, s0[s0.len() - 1].0.alphabet@);
                                lemma_fold_symbols(s0, (parent_nfa, parent_tag));
                                lemma_models_pop(s0);
                                lemma_models_pop(s0.drop_last());
                                lemma_models_push(s2, (parent_nfa, parent_tag));
                                assert(s0.drop_last().drop_last() == s2);
                                assert(models(s0)[models(s0).len() - 2] == models(s0.drop_last()).last());
                                assert(models(stack@) == fold_top(models(s0)));
                                assert forall|k: int| 0 <= k < stack@.len() implies (#[trigger] stack@[k]).0.wf() by {
                                    if k < stack@.len() - 1 {
                                        assert(stack@[k] == s0[k]);
                                    }
                                }
                                assert forall|k: int| 1 <= k < stack@.len() implies (#[trigger] stack@[k]).1 != Frame::Finished by {
                                    assert(stack@[k].1 == s0[k].1);
                                }
                            }
                        },
                        Frame::Finished => {
                            assert(s0[s0.len() - 1].1 != Frame::Finished);
                            return Ok(last_nfa);
                        },
                    }
                }
            } else if token == '*' {
                let ghost s0 = stack@;
                proof {
                    lemma_stack_facts(s0);
                }
                let top = match stack.pop() {
                    Some(x) => x,
                    None => {
                        return Err(Error::StructuralRegex);
                    },
                };
                assert(top == s0.last() && stack@ == s0.drop_last());
                assert(s0[s0.len() - 1] == top);
                let (mut top_nfa, top_tag) = top;
                let _ = operators::kleene_star(&mut top_nfa);
                let ghost s1 = stack@;
                stack.push((top_nfa, top_tag));
                proof {
                    lemma_push(s1, (top_nfa, top_tag));
                    lemma_replace_top_symbols(s0, (top_nfa, top_tag));
                    lemma_models_pop(s0);
                    lemma_models_push(s1, (top_nfa, top_tag));
                    assert(top_nfa.model() == star_model(s0.last().0.model()));
                    assert(models(stack@) == parse_step(pre, token));
                    assert forall|k: int| 0 <= k < stack@.len() implies (#[trigger] stack@[k]).0.wf() by {
                        if k < stack@.len() - 1 {
                            assert(stack@[k] == s0[k]);
                        }
                    }
                    assert forall|k: int| 1 <= k < stack@.len() implies (#[trigger] stack@[k]).1 != Frame::Finished by {
                        assert(stack@[k].1 == s0[k].1);
                    }
                }
            } else if token == '|' {
                loop
                    invariant
                        n == chars@.len() <= 0x7fff_fffe,
                        i < n,
                        stack_ok(stack@),
                        brackets(stack@) == paren_depth(chars@.take(i as int)),
                        weight(stack@) <= 2 * i + 1,
                        frame_symbols(stack@) == literals(chars@.take(i as int)).insert(EMPTY_STRING),
                        fold_concats(models(stack@)) == fold_concats(pre),
                    ensures
                        stack_ok(stack@),
                        brackets(stack@) == paren_depth(chars@.take(i as int)),
                        weight(stack@) <= 2 * i + 1,
                        frame_symbols(stack@) == literals(chars@.take(i as int)).insert(EMPTY_STRING),
                        models(stack@) == fold_concats(pre),
                    decreases stack@.len(),
                {
                    let ghost s0 = stack@;
                    proof {
                        lemma_stack_facts(s0);
                        lemma_stack_facts(s0.drop_last());
                    }
                    let last = match stack.pop() {
                        Some(x) => x,
                        None => {
                            return Err(Error::StructuralRegex);
                        },
                    };
                    assert(last == s0.last() && stack@ == s0.drop_last());
                    assert(s0[s0.len() - 1] == last);
                    if last.1 != Frame::Concat {
                        stack.push(last);
                        proof {
                            lemma_push(s0.drop_last(), last);
                            assert(stack@ =~= s0);
                            lemma_models_pop(s0);
                        }
                        break;
                    }
                    let ghost s1 = stack@;
                    proof {
                        lemma_stack_facts(s1);
                    }
                    let parent = match stack.pop() {
                        Some(x) => x,
                        None => {
                            return Err(Error::StructuralRegex);
                        },
                    };
                    assert(parent == s1.last() && stack@ == s1.drop_last());
                    assert(s0[s0.len() - 2] == parent);
                    proof {
                        lemma_stack_facts(stack@);
                    }
                    assert(weight(s0) == weight(s1) + last.0.num_states);
                    assert(weight(s1) >= parent.0.num_states);
                    let (mut parent_nfa, parent_tag) = parent;
                    let _ = operators::concat(&mut parent_nfa, last.0);
                    let ghost s2 = stack@;
                    stack.push((parent_nfa, parent_tag));
                    proof {
                        lemma_push(s2, (parent_nfa, parent_tag));
                                lemma_merge_contains(s0[s0.len() - 2].0.alphabet@, s0[s0.len() - 1].0.alphabet@);
                                lemma_fold_symbols(s0, (parent_nfa, parent_tag));
                                lemma_models_pop(s0);
                                lemma_models_pop(s0.drop_last());
                                lemma_models_push(s2, (parent_nfa, parent_tag));
                                assert(s0.drop_last().drop_last() == s2);
                                assert(models(s0)[models(s0).len() - 2] == models(s0.drop_last()).last());
                                assert(models(stack@) == fold_top(models(s0)));
                        assert forall|k: int| 0 <= k < stack@.len() implies (#[trigger] stack@[k]).0.wf() by {
                            if k < stack@.len() - 1 {
                                assert(stack@[k] == s0[k]);
                            }
                        }
                        assert forall|k: int| 1 <= k < stack@.len() implies (#[trigger] stack@[k]).1 != Frame::Finished by {
                            assert(stack@[k].1 == s0[k].1);
                        }
                    }
                }
                let fresh = Nfa::new();
                let ghost s0 = stack@;
                stack.push((fresh, Frame::Union));
                proof {
                    lemma_push(s0, (fresh, Frame::Union));
                    lemma_push_symbols(s0, (fresh, Frame::Union));
                    lemma_models_push(s0, (fresh, Frame::Union));
                    assert(fresh.transitions@ =~= Seq::<(u32, char, u32)>::empty());
                    assert(fresh.accept_states@ =~= Seq::<u32>::empty());
                    assert(fresh.model() == fresh_model());
                    lemma_fresh_symbols(EMPTY_STRING);
                    assert(frame_symbols(stack@) =~= frame_symbols(s0));
                }
            } else {
                let mut fresh = Nfa::new();
                fresh.add_symbol(token);
                let _ = fresh.push_symbol(token);
                let ghost s0 = stack@;
                stack.push((fresh, Frame::Concat));
                proof {
                    lemma_push(s0, (fresh, Frame::Concat));
                    lemma_push_symbols(s0, (fresh, Frame::Concat));
                    lemma_fresh_symbols(token);
                    assert(frame_symbols(stack@) =~= frame_symbols(s0).insert(token));
                    lemma_models_push(s0, (fresh, Frame::Concat));
                    assert(seq![EMPTY_STRING].contains(token) <==> token == EMPTY_STRING) by {
                        if seq![EMPTY_STRING].contains(token) {
                            let k = choose|k: int| 0 <= k < 1 && seq![EMPTY_STRING][k] == token;
                        }
                        if token == EMPTY_STRING {
                            assert(seq![EMPTY_STRING][0] == token);
                        }
                    }
                    assert(fresh.alphabet@ =~= symbol_model(token).alphabet);
                    assert(fresh.transitions@ =~= seq![(0u32, token, 1u32)]);
                    assert(fresh.accept_states@ =~= seq![1u32]);
                    assert(fresh.model() == symbol_model(token));
                }
            }
            proof {
                assert(models(stack@) == parse_step(pre, token));
                assert(parse_frames(chars@, (i + 1) as nat) == parse_step(parse_frames(chars@, i as nat), chars@[i as int]));
            }
            i = i + 1;
        }
        assert(chars@.take(n as int) =~= chars@);
        assert(frame_symbols(stack@) == literals(expression@).insert(EMPTY_STRING));
        loop
            invariant
                stack_ok(stack@),
                brackets(stack@) == 0,
                weight(stack@) <= 2 * n + 1,
                n <= 0x7fff_fffe,
                is_valid_regex(expression@),
                frame_symbols(stack@) == literals(expression@).insert(EMPTY_STRING),
                drain(models(stack@)) == thompson(expression@),
            decreases stack@.len(),
        {
            let ghost s0 = stack@;
            proof {
                lemma_stack_facts(s0);
                lemma_stack_facts(s0.drop_last());
            }
            let current = match stack.pop() {
                Some(x) => x,
                None => {
                    return Err(Error::StructuralRegex);
                },
            };
            assert(current == s0.last() && stack@ == s0.drop_last());
            assert(s0[s0.len() - 1] == current);
            let (current_nfa, current_tag) = current;
            if current_tag == Frame::Finished {
                proof {
                    assert(s0.len() == 1);
                    lemma_models_pop(s0);
                    assert(s0.drop_last() =~= Seq::<(Nfa, Frame)>::empty());
                    assert(frame_symbols(s0.drop_last()) == Set::<char>::empty());
                    assert(s0.last().0 == current_nfa);
                    assert(frame_symbols(s0) =~= current_nfa.alphabet@.to_set());
                    assert forall|c: char|
                        current_nfa.alphabet@.contains(c) <==> (c == EMPTY_STRING || #[trigger] literals(expression@).contains(c)) by {
                        assert(current_nfa.alphabet@.contains(c) <==> current_nfa.alphabet@.to_set().contains(c));
                    }
                }
                return Ok(current_nfa);
            }
            if current_tag == Frame::Bracket {
                return Err(Error::StructuralRegex);
            }
            let ghost s1 = stack@;
            proof {
                lemma_stack_facts(s1);
            }
            let parent = match stack.pop() {
                Some(x) => x,
                None => {
                    return Err(Error::StructuralRegex);
                },
            };
            assert(parent == s1.last() && stack@ == s1.drop_last());
            assert(s0[s0.len() - 2] == parent);
            let (mut parent_nfa, parent_tag) = parent;
            if current_tag == Frame::Union {
                let _ = operators::union(&mut parent_nfa, current_nfa);
            } else {
                let _ = operators::concat(&mut parent_nfa, current_nfa);
            }
            let ghost s2 = stack@;
            stack.push((parent_nfa, parent_tag));
            proof {
                lemma_push(s2, (parent_nfa, parent_tag));
                                lemma_merge_contains(s0[s0.len() - 2].0.alphabet@, s0[s0.len() - 1].0.alphabet@);
                                lemma_fold_symbols(s0, (parent_nfa, parent_tag));
                                lemma_models_pop(s0);
                                lemma_models_pop(s0.drop_last());
                                lemma_models_push(s2, (parent_nfa, parent_tag));
                                assert(s0.drop_last().drop_last() == s2);
                                assert(models(s0)[models(s0).len() - 2] == models(s0.drop_last()).last());
                                assert(models(stack@) == fold_top(models(s0)));
                assert forall|k: int| 0 <= k < stack@.len() implies (#[trigger] stack@[k]).0.wf() by {
                    if k < stack@.len() - 1 {
                        assert(stack@[k] == s0[k]);
                    }
                }
                assert forall|k: int| 1 <= k < stack@.len() implies (#[trigger] stack@[k]).1 != Frame::Finished by {
                    assert(stack@[k].1 == s0[k].1);
                }
            }
        }
    }
}

/// Whether `v` holds `x`.
pub fn vec_contains_u32(v: &Vec<u32>, x: u32) -> (r: bool)
    ensures
        r == v@.contains(x),
{
    let mut i: usize = 0;
    while i < v.len()
        invariant
            i <= v.len(),
            forall|j: int| 0 <= j < i ==> v@[j] != x,
        decreases v.len() - i,
    {
        if v[i] == x {
            return true;
        }
        i = i + 1;
    }
    false
}

/// Whether `v` holds `x`.
pub fn vec_contains_char(v: &Vec<char>, x: char) -> (r: bool)
    ensures
        r == v@.contains(x),
{
    let mut i: usize = 0;
    while i < v.len()
        invariant
            i <= v.len(),
            forall|j: int| 0 <= j < i ==> v@[j] != x,
        decreases v.len() - i,
    {
        if v[i] == x {
            return true;
        }
        i = i + 1;
    }
    false
}

} // verus!

verus! {

/// No empty-word transition leaves the set `s`.
pub open spec fn eps_closed(nfa: &Nfa, s: Set<u32>) -> bool {
    forall|p: u32, d: u32|
        #![trigger s.contains(p), nfa.has_edge(p, EMPTY_STRING, d)]
        s.contains(p) && nfa.has_edge(p, EMPTY_STRING, d) ==> s.contains(d)
}

/// `c` is the least set that holds `start` and that no empty-word
/// transition leaves.
pub open spec fn is_eps_closure(nfa: &Nfa, start: Set<u32>, c: Set<u32>) -> bool {
    &&& start.subset_of(c)
    &&& eps_closed(nfa, c)
    &&& forall|t: Set<u32>| #![trigger c.subset_of(t)]
        start.subset_of(t) && eps_closed(nfa, t) ==> c.subset_of(t)
}

/// The states reached from some state of `s` by one transition on `a`.
pub open spec fn move_set(nfa: &Nfa, s: Set<u32>, a: char) -> Set<u32> {
    Set::new(|d: u32| exists|q: u32| s.contains(q) && #[trigger] nfa.has_edge(q, a, d))
}

/// A table of `n` unmarked entries.
pub(crate) fn unmarked(n: u32) -> (r: Vec<bool>)
    ensures
        r.len() == n,
        forall|d: int| 0 <= d < n ==> !r@[d],
{
    let mut marks: Vec<bool> = Vec::new();
    let mut q: u32 = 0;
    while q < n
        invariant
            q <= n,
            marks.len() == q,
            forall|d: int| 0 <= d < q ==> !marks@[d],
        decreases n - q,
    {
        marks.push(false);
        q = q + 1;
    }
    marks
}

} // verus!

verus! {

/// `dfa` is the subset automaton of `nfa` under the labelling `labels`: state
/// `0` stands for the closure of `{0}`, each transition on `a` leads to the
/// closure of the states that the source's set reaches on `a`, and a state
/// accepts exactly when its set holds an accept state of `nfa`.
pub open spec fn is_subset_automaton(nfa: &Nfa, dfa: &Dfa, labels: Seq<Set<u32>>) -> bool {
    &&& labels.len() == dfa.num_states
    &&& forall|a: int, b: int| 0 <= a < labels.len() && 0 <= b < labels.len() && a != b ==> #[trigger] labels[a] != #[trigger] labels[b]
    &&& is_eps_closure(nfa, set![0u32], labels[0])
    &&& forall|p: u32, a: char, q: u32|
        #[trigger] dfa.has_edge(p, a, q) ==> is_eps_closure(
            nfa,
            move_set(nfa, labels[p as int], a),
            labels[q as int],
        )
    &&& forall|p: u32|
        p < dfa.num_states ==> (#[trigger] dfa.is_accept(p) <==> exists|q: u32|
            labels[p as int].contains(q) && #[trigger] nfa.is_accept(q))
}

/// Each list is a strictly increasing list of states below `n`, and no two
/// are equal.
pub open spec fn distinct_state_sets(sets: Seq<Seq<u32>>, n: u32) -> bool {
    &&& forall|k: int| 0 <= k < sets.len() ==> sorted_strict(#[trigger] sets[k])
    &&& forall|k: int, m: int| 0 <= k < sets.len() && 0 <= m < sets[k].len() ==> #[trigger] sets[k][m] < n
    &&& forall|a: int, b: int| 0 <= a < sets.len() && 0 <= b < sets.len() && a != b ==> #[trigger] sets[a] != #[trigger] sets[b]
}

/// The views of a list of lists.
pub open spec fn list_views(sets: Seq<Vec<u32>>) -> Seq<Seq<u32>> {
    sets.map_values(|v: Vec<u32>| v@)
}

/// The closure of a set of states holds states only.
pub proof fn lemma_closure_in_range(nfa: &Nfa, start: Set<u32>, c: Set<u32>)
    requires
        nfa.wf(),
        is_eps_closure(nfa, start, c),
        forall|x: u32| start.contains(x) ==> x < nfa.num_states,
    ensures
        forall|x: u32| c.contains(x) ==> x < nfa.num_states,
{
    let tn = Set::<u32>::new(|x: u32| x < nfa.num_states);
    assert(start.subset_of(tn));
    assert forall|p: u32, x: u32| tn.contains(p) && nfa.has_edge(p, EMPTY_STRING, x) implies tn.contains(x) by {
        let k = choose|k: int| 0 <= k < nfa.transitions@.len() && nfa.transitions@[k] == (p, EMPTY_STRING, x);
        assert(nfa.transitions@[k].2 < nfa.num_states);
    }
    assert(c.subset_of(tn));
}

/// The largest target of the transitions of `e`, or `0`.
pub open spec fn max_target(e: Seq<(u32, char, u32)>) -> u32
    decreases e.len(),
{
    if e.len() == 0 {
        0
    } else if max_target(e.drop_last()) >= e.last().2 {
        max_target(e.drop_last())
    } else {
        e.last().2
    }
}

/// The numbering and listing of a breadth-first subset construction:
/// transitions are listed by source state in increasing order and, for each
/// source, in the order of the alphabet; a target never met before is the
/// next unused number, and every number is met.
pub open spec fn in_discovery_order(dfa: &Dfa) -> bool {
    let e = dfa.transitions@;
    &&& forall|x: int, y: int| 0 <= x < y < e.len() ==> (#[trigger] e[x]).0 <= (#[trigger] e[y]).0
    &&& forall|x: int, y: int|
        0 <= x < y < e.len() && (#[trigger] e[x]).0 == (#[trigger] e[y]).0 ==> exists|k1: int, k2: int|
            0 <= k1 < k2 < dfa.alphabet@.len() && dfa.alphabet@[k1] == e[x].1 && dfa.alphabet@[k2] == e[y].1
    &&& forall|x: int| 0 <= x < e.len() ==> (#[trigger] e[x]).2 <= max_target(e.take(x)) + 1
    &&& dfa.num_states == max_target(e) + 1
}

/// Strictly increasing lists with the same elements are equal.
pub proof fn lemma_sorted_same_set(a: Seq<u32>, b: Seq<u32>)
    requires
        sorted_strict(a),
        sorted_strict(b),
        a.to_set() == b.to_set(),
    ensures
        a == b,
    decreases a.len(),
{
    if a.len() == 0 {
        if b.len() > 0 {
            assert(b.to_set().contains(b[0]));
        }
        assert(a =~= b);
    } else {
        assert(a.to_set().contains(a[0]));
        assert(b.contains(a[0]));
        assert(b.len() > 0);
        assert(b.to_set().contains(b[0]));
        assert(a.contains(b[0]));
        let i = choose|i: int| 0 <= i < a.len() && a[i] == b[0];
        let j = choose|j: int| 0 <= j < b.len() && b[j] == a[0];
        assert(a[0] == b[0]) by {
            if i > 0 {
                assert(a[0] < a[i]);
            }
            if j > 0 {
                assert(b[0] < b[j]);
            }
        }
        let a1 = a.drop_first();
        let b1 = b.drop_first();
        assert forall|x: u32| a1.to_set().contains(x) <==> b1.to_set().contains(x) by {
            if a1.contains(x) {
                let k = choose|k: int| 0 <= k < a1.len() && a1[k] == x;
                assert(a[k + 1] == x && a[0] < a[k + 1]);
                assert(a.contains(x));
                assert(a.to_set().contains(x));
                assert(b.to_set().contains(x));
                assert(b.contains(x));
                let m = choose|m: int| 0 <= m < b.len() && b[m] == x;
                assert(m != 0);
                assert(b1[m - 1] == x);
            }
            if b1.contains(x) {
                let k = choose|k: int| 0 <= k < b1.len() && b1[k] == x;
                assert(b[k + 1] == x && b[0] < b[k + 1]);
                assert(b.contains(x));
                assert(b.to_set().contains(x));
                assert(a.to_set().contains(x));
                assert(a.contains(x));
                let m = choose|m: int| 0 <= m < a.len() && a[m] == x;
                assert(m != 0);
                assert(a1[m - 1] == x);
            }
        }
        assert(a1.to_set() =~= b1.to_set());
        lemma_sorted_same_set(a1, b1);
        assert(a.len() == b.len());
        assert forall|k: int| 0 <= k < a.len() implies a[k] == b[k] by {
            if k > 0 {
                assert(a[k] == a1[k - 1] && b[k] == b1[k - 1]);
            }
        }
        assert(a =~= b);
    }
}

/// The sets of a list of state lists.
pub open spec fn labels_of(sets: Seq<Vec<u32>>) -> Seq<Set<u32>> {
    sets.map_values(|v: Vec<u32>| v@.to_set())
}

/// Some transition of `e` leaves `p` on `a`.
pub open spec fn has_out(e: Seq<(u32, char, u32)>, p: u32, a: char) -> bool {
    exists|d: u32| e.contains((p, a, d))
}

/// Whether the two lists are equal.
pub fn vec_u32_eq(a: &Vec<u32>, b: &Vec<u32>) -> (r: bool)
    ensures
        r == (a@ == b@),
{
    if a.len() != b.len() {
        return false;
    }
    let mut i: usize = 0;
    while i < a.len()
        invariant
            a.len() == b.len(),
            i <= a.len(),
            forall|j: int| 0 <= j < i ==> a@[j] == b@[j],
        decreases a.len() - i,
    {
        if a[i] != b[i] {
            return false;
        }
        i = i + 1;
    }
    assert(a@ =~= b@);
    true
}

/// The position of `x` in `sets`, if it is there.
fn position_of(sets: &Vec<Vec<u32>>, x: &Vec<u32>) -> (r: Option<usize>)
    ensures
        r matches Some(j) ==> j < sets.len() && sets@[j as int]@ == x@,
        r is None ==> forall|j: int| 0 <= j < sets.len() ==> (#[trigger] sets@[j])@ != x@,
{
    let mut i: usize = 0;
    while i < sets.len()
        invariant
            i <= sets.len(),
            forall|j: int| 0 <= j < i ==> (#[trigger] sets@[j])@ != x@,
        decreases sets.len() - i,
    {
        if vec_u32_eq(&sets[i], x) {
            return Some(i);
        }
        i = i + 1;
    }
    None
}

impl Nfa {
    /// Whether some member of `set` is an accept state.
    fn any_accepting(&self, set: &Vec<u32>) -> (r: bool)
        ensures
            r == exists|q: u32| set@.to_set().contains(q) && #[trigger] self.is_accept(q),
    {
        let mut k: usize = 0;
        while k < set.len()
            invariant
                k <= set.len(),
                forall|j: int| 0 <= j < k ==> !self.is_accept(#[trigger] set@[j]),
            decreases set.len() - k,
        {
            if self.is_accept_state(set[k]) {
                assert(set@.to_set().contains(set@[k as int]));
                return true;
            }
            k = k + 1;
        }
        proof {
            assert forall|q: u32| !(set@.to_set().contains(q) && #[trigger] self.is_accept(q)) by {
                if set@.to_set().contains(q) {
                    let j = choose|j: int| 0 <= j < set@.len() && set@[j] == q;
                    assert(!self.is_accept(set@[j]));
                }
            }
        }
        false
    }

    /// The subset construction: the states of the result stand for the
    /// epsilon-closed sets of states reachable from the closure of the start
    /// state, numbered in the order in which a breadth-first search meets
    /// them; the empty set, where it is met, is a non-accepting sink. The
    /// alphabet is that of the automaton without the empty-word marker. The
    /// result is `None` only where more than `u32::MAX` states would be needed.
    #[verifier::rlimit(60)]
    pub fn to_dfa(&self) -> (r: Option<Dfa>)
        requires
            self.wf(),
        ensures
            r is None ==> too_many_subsets(self),
            r matches Some(d) ==> {
                &&& d.wf()
                &&& d.complete()
                &&& d.alphabet@ == without_symbol(self.alphabet@, EMPTY_STRING)
                &&& forall|c: char| #[trigger] d.alphabet@.contains(c) <==> (self.alphabet@.contains(c) && c != EMPTY_STRING)
                &&& exists|labels: Seq<Set<u32>>| is_subset_automaton(self, &d, labels)
                &&& in_discovery_order(&d)
            },
    {
        let n = self.num_states;
        let alphabet = crate::util::chars_without(&self.alphabet, EMPTY_STRING);
        let start = crate::util::state_epsilon_clojure(self, 0);
        let mut sets: Vec<Vec<u32>> = Vec::new();
        sets.push(start);
        proof {
            lemma_closure_unique(self, set![0u32], start@.to_set());
            assert(list_views(sets@)[0] == start@);
            assert(!Seq::<char>::empty().contains(EMPTY_STRING));
            assert(nfa_reads(self, eps_closure(self, set![0u32]), Seq::<char>::empty()) == start@.to_set());
            assert(reached(self, list_views(sets@)[0]));
            lemma_closure_in_range(self, set![0u32], start@.to_set());
            let v = list_views(sets@);
            assert(v[0] == start@);
            assert forall|m: int| 0 <= m < start@.len() implies #[trigger] start@[m] < n by {
                assert(start@.to_set().contains(start@[m]));
            }
        }
        let mut edges: Vec<(u32, char, u32)> = Vec::new();
        let mut i: usize = 0;
        while i < sets.len()
            invariant
                self.wf(),
                n == self.num_states,
                alphabet@ == without_symbol(self.alphabet@, EMPTY_STRING),
                alphabet@.no_duplicates(),
                1 <= sets.len() <= u32::MAX,
                i <= sets.len(),
                distinct_state_sets(list_views(sets@), n),
                forall|x: int, y: int| 0 <= x < y < edges@.len() ==> (#[trigger] edges@[x]).0 <= (#[trigger] edges@[y]).0,
                forall|x: int, y: int|
                    0 <= x < y < edges@.len() && (#[trigger] edges@[x]).0 == (#[trigger] edges@[y]).0 ==> exists|k1: int, k2: int|
                        0 <= k1 < k2 < alphabet@.len() && alphabet@[k1] == edges@[x].1 && alphabet@[k2] == edges@[y].1,
                forall|x: int| 0 <= x < edges@.len() ==> (#[trigger] edges@[x]).2 <= max_target(edges@.take(x)) + 1,
                max_target(edges@) == sets.len() - 1,
                forall|k: int| 0 <= k < sets.len() ==> #[trigger] reached(self, list_views(sets@)[k]),
                forall|c: char| alphabet@.contains(c) ==> c != EMPTY_STRING,
                is_eps_closure(self, set![0u32], sets@[0]@.to_set()),
                forall|j: int| 0 <= j < edges@.len() ==> {
                    let t = #[trigger] edges@[j];
                    t.0 < i && t.2 < sets.len() && alphabet@.contains(t.1)
                },
                keys_unique(edges@),
                forall|p: u32, a: char|
                    p < i && alphabet@.contains(a) ==> #[trigger] has_out(edges@, p, a),
                forall|p: u32, a: char, q: u32|
                    #[trigger] edges@.contains((p, a, q)) ==> is_eps_closure(
                        self,
                        move_set(self, sets@[p as int]@.to_set(), a),
                        sets@[q as int]@.to_set(),
                    ),
            decreases u32::MAX - i,
        {
            let mut k: usize = 0;
            while k < alphabet.len()
                invariant
                    self.wf(),
                    n == self.num_states,
                    alphabet@.no_duplicates(),
                    1 <= sets.len() <= u32::MAX,
                    i < sets.len(),
                    k <= alphabet.len(),
                    distinct_state_sets(list_views(sets@), n),
                    forall|x: int, y: int| 0 <= x < y < edges@.len() ==> (#[trigger] edges@[x]).0 <= (#[trigger] edges@[y]).0,
                    forall|x: int, y: int|
                        0 <= x < y < edges@.len() && (#[trigger] edges@[x]).0 == (#[trigger] edges@[y]).0 ==> exists|k1: int, k2: int|
                            0 <= k1 < k2 < alphabet@.len() && alphabet@[k1] == edges@[x].1 && alphabet@[k2] == edges@[y].1,
                    forall|x: int| 0 <= x < edges@.len() ==> (#[trigger] edges@[x]).2 <= max_target(edges@.take(x)) + 1,
                    max_target(edges@) == sets.len() - 1,
                    forall|k: int| 0 <= k < sets.len() ==> #[trigger] reached(self, list_views(sets@)[k]),
                    forall|c: char| alphabet@.contains(c) ==> c != EMPTY_STRING,

                    is_eps_closure(self, set![0u32], sets@[0]@.to_set()),
                    forall|j: int| 0 <= j < edges@.len() ==> {
                        let t = #[trigger] edges@[j];
                        (t.0 < i || (t.0 == i && alphabet@.take(k as int).contains(t.1))) && t.2
                            < sets.len() && alphabet@.contains(t.1)
                    },
                    keys_unique(edges@),
                    forall|p: u32, a: char|
                        p < i && alphabet@.contains(a) ==> #[trigger] has_out(edges@, p, a),
                    forall|j: int|
                        0 <= j < k ==> #[trigger] has_out(edges@, i as u32, alphabet@[j]),
                    forall|p: u32, a: char, q: u32|
                        #[trigger] edges@.contains((p, a, q)) ==> is_eps_closure(
                            self,
                            move_set(self, sets@[p as int]@.to_set(), a),
                            sets@[q as int]@.to_set(),
                        ),
                decreases alphabet.len() - k,
            {
                let a = alphabet[k];
                let t = crate::util::set_transitions(self, sets[i].as_slice(), a);
                proof {
                    assert forall|m: int| 0 <= m < t@.len() implies #[trigger] t@[m] < self.num_states by {
                        assert(t@.to_set().contains(t@[m]));
                        let q = choose|q: u32| sets@[i as int]@.to_set().contains(q) && #[trigger] self.has_edge(q, a, t@[m]);
                        let jj = choose|jj: int| 0 <= jj < self.transitions@.len() && self.transitions@[jj] == (q, a, t@[m]);
                    }
                }
                let c = crate::util::set_epsilon_clojure(self, t.as_slice());
                let ghost old_sets = sets@;
                let ghost old_edges = edges@;
                let j: usize = match position_of(&sets, &c) {
                    Some(j) => j,
                    None => {
                        if sets.len() >= u32::MAX as usize {
                            assert(list_views(sets@).len() == u32::MAX);
                            return None;
                        }
                        proof {
                            lemma_closure_in_range(self, t@.to_set(), c@.to_set());
                            assert forall|m: int| 0 <= m < c@.len() implies #[trigger] c@[m] < n by {
                                assert(c@.to_set().contains(c@[m]));
                            }
                        }
                        proof {
                            let v = list_views(sets@);
                            assert(reached(self, v[i as int]));
                            let w = choose|w: Seq<char>|
                                !w.contains(EMPTY_STRING) && #[trigger] nfa_reads(self, eps_closure(self, set![0u32]), w) == v[i as int].to_set();
                            assert(alphabet@.contains(a));
                            lemma_reads_push(self, eps_closure(self, set![0u32]), w, a);
                            lemma_closure_unique(self, t@.to_set(), c@.to_set());
                            assert(!w.push(a).contains(EMPTY_STRING)) by {
                                if w.push(a).contains(EMPTY_STRING) {
                                    let x = choose|x: int| 0 <= x < w.push(a).len() && w.push(a)[x] == EMPTY_STRING;
                                    if x < w.len() {
                                        assert(w[x] == EMPTY_STRING);
                                    }
                                }
                            }
                            assert(nfa_reads(self, eps_closure(self, set![0u32]), w.push(a)) == c@.to_set());
                            assert(reached(self, c@));
                        }
                        let ghost before = sets@;
                        sets.push(c);
                        proof {
                            let v0 = list_views(before);
                            let v1 = list_views(sets@);
                            assert forall|x: int| 0 <= x < v1.len() implies #[trigger] reached(self, v1[x]) by {
                                if x < v0.len() {
                                    assert(sets@[x] == before[x]);
                                    assert(reached(self, v0[x]));
                                } else {
                                    assert(v1[x] == c@);
                                }
                            }
                            assert forall|x: int| 0 <= x < v0.len() implies v1[x] == v0[x] by {
                                assert(sets@[x] == before[x]);
                            }
                            assert(v1[v0.len() as int] == c@);
                            assert forall|a: int, b: int| 0 <= a < v1.len() && 0 <= b < v1.len() && a != b implies #[trigger] v1[a] != #[trigger] v1[b] by {
                                if a < v0.len() && b < v0.len() {
                                    assert(v1[a] == v0[a] && v1[b] == v0[b]);
                                } else if a < v0.len() {
                                    assert(before[a]@ != c@);
                                } else {
                                    assert(before[b]@ != c@);
                                }
                            }
                            assert forall|x: int| 0 <= x < v1.len() implies sorted_strict(#[trigger] v1[x]) by {
                                if x < v0.len() {
                                    assert(v1[x] == v0[x]);
                                }
                            }
                            assert forall|x: int, m: int| 0 <= x < v1.len() && 0 <= m < v1[x].len() implies #[trigger] v1[x][m] < n by {
                                if x < v0.len() {
                                    assert(v1[x] == v0[x]);
                                }
                            }
                        }
                        sets.len() - 1
                    },
                };
                assert(sets@[j as int]@ == c@);
                assert(forall|p: int| 0 <= p < old_sets.len() ==> sets@[p] == old_sets[p]);
                edges.push((i as u32, a, j as u32));
                proof {
                    assert(edges@.drop_last() =~= old_edges);
                    assert(edges@.last() == (i as u32, a, j as u32));
                    assert(j <= old_sets.len());
                    assert(sets.len() == old_sets.len() || sets.len() == old_sets.len() + 1);
                    assert(j == old_sets.len() ==> sets.len() == old_sets.len() + 1);
                    assert(max_target(edges@) == sets.len() - 1);
                    assert forall|x: int| 0 <= x < edges@.len() implies (#[trigger] edges@[x]).2 <= max_target(edges@.take(x)) + 1 by {
                        if x < old_edges.len() {
                            assert(edges@.take(x) =~= old_edges.take(x));
                            assert(edges@[x] == old_edges[x]);
                        } else {
                            assert(edges@.take(x) =~= old_edges);
                        }
                    }
                    let e = (i as u32, a, j as u32);
                    assert(edges@[edges@.len() - 1] == e);
                    assert(alphabet@.take(k as int + 1)[k as int] == a);
                    assert(!alphabet@.take(k as int).contains(a)) by {
                        if alphabet@.take(k as int).contains(a) {
                            let x = choose|x: int| 0 <= x < k && alphabet@.take(k as int)[x] == a;
                            assert(alphabet@[x] == alphabet@[k as int]);
                        }
                    }
                    assert forall|x: int| 0 <= x < edges@.len() implies {
                        let tt = #[trigger] edges@[x];
                        (tt.0 < i || (tt.0 == i && alphabet@.take(k as int + 1).contains(tt.1))) && tt.2
                            < sets.len() && alphabet@.contains(tt.1)
                    } by {
                        if x < old_edges.len() {
                            let tt = old_edges[x];
                            assert(edges@[x] == tt);
                            if tt.0 == i && alphabet@.take(k as int).contains(tt.1) {
                                let y = choose|y: int| 0 <= y < k && alphabet@.take(k as int)[y] == tt.1;
                                assert(alphabet@.take(k as int + 1)[y] == tt.1);
                            }
                        } else {
                            assert(alphabet@.contains(a));
                        }
                    }
                    assert forall|x: int, y: int|
                        0 <= x < edges@.len() && 0 <= y < edges@.len() && (#[trigger] edges@[x]).0 == (#[trigger] edges@[y]).0
                            && edges@[x].1 == edges@[y].1 implies x == y by {
                        let l = old_edges.len() as int;
                        if x < l && y < l {
                            assert(old_edges[x] == edges@[x] && old_edges[y] == edges@[y]);
                        } else if x < l {
                            assert(old_edges[x] == edges@[x]);
                        } else if y < l {
                            assert(old_edges[y] == edges@[y]);
                        }
                    }
                    assert forall|p: u32, b: char|
                        p < i && alphabet@.contains(b) implies #[trigger] has_out(edges@, p, b) by {
                        assert(has_out(old_edges, p, b));
                        let d = choose|d: u32| #[trigger] old_edges.contains((p, b, d));
                        let x = choose|x: int| 0 <= x < old_edges.len() && old_edges[x] == (p, b, d);
                        assert(edges@[x] == (p, b, d));
                        assert(edges@.contains((p, b, d)));
                    }
                    assert forall|y: int|
                        0 <= y < k + 1 implies #[trigger] has_out(edges@, i as u32, alphabet@[y]) by {
                        if y < k {
                            assert(has_out(old_edges, i as u32, alphabet@[y]));
                            let d = choose|d: u32| #[trigger] old_edges.contains((i as u32, alphabet@[y], d));
                            let x = choose|x: int| 0 <= x < old_edges.len() && old_edges[x] == (i as u32, alphabet@[y], d);
                            assert(edges@[x] == (i as u32, alphabet@[y], d));
                            assert(edges@.contains((i as u32, alphabet@[y], d)));
                        } else {
                            assert(edges@.contains((i as u32, alphabet@[y], j as u32)));
                        }
                    }
                    assert forall|p: u32, b: char, q: u32|
                        #[trigger] edges@.contains((p, b, q)) implies is_eps_closure(
                            self,
                            move_set(self, sets@[p as int]@.to_set(), b),
                            sets@[q as int]@.to_set(),
                        ) by {
                        let x = choose|x: int| 0 <= x < edges@.len() && edges@[x] == (p, b, q);
                        if x < old_edges.len() {
                            assert(old_edges[x] == (p, b, q));
                            assert(old_edges.contains((p, b, q)));
                        } else {
                            assert(sets@[i as int] == old_sets[i as int]);
                        }
                    }
                }
                k = k + 1;
            }
            proof {
                assert forall|p: u32, a: char|
                    p < i + 1 && alphabet@.contains(a) implies #[trigger] has_out(edges@, p, a) by {
                    if p == i {
                        let y = choose|y: int| 0 <= y < alphabet@.len() && alphabet@[y] == a;
                        assert(has_out(edges@, i as u32, alphabet@[y]));
                    }
                }
                assert(alphabet@.take(k as int) =~= alphabet@);
            }
            i = i + 1;
        }
        let mut accept: Vec<u32> = Vec::new();
        let mut p: usize = 0;
        while p < sets.len()
            invariant
                p <= sets.len() <= u32::MAX,
                sorted_strict(accept@),
                forall|x: int| 0 <= x < accept@.len() ==> #[trigger] accept@[x] < p,
                forall|q: u32| q < p ==> (accept@.contains(q) <==> exists|s: u32|
                    sets@[q as int]@.to_set().contains(s) && #[trigger] self.is_accept(s)),
            decreases sets.len() - p,
        {
            let ghost old_acc = accept@;
            if self.any_accepting(&sets[p]) {
                accept.push(p as u32);
            }
            proof {
                assert forall|q: u32| q < p + 1 implies (accept@.contains(q) <==> exists|s: u32|
                    sets@[q as int]@.to_set().contains(s) && #[trigger] self.is_accept(s)) by {
                    if q < p {
                        if accept@.contains(q) {
                            let x = choose|x: int| 0 <= x < accept@.len() && accept@[x] == q;
                            if x < old_acc.len() {
                                assert(old_acc[x] == q);
                            }
                        }
                        if old_acc.contains(q) {
                            let x = choose|x: int| 0 <= x < old_acc.len() && old_acc[x] == q;
                            assert(accept@[x] == q);
                        }
                    } else {
                        if accept@.contains(q) && old_acc.contains(q) {
                            let x = choose|x: int| 0 <= x < old_acc.len() && old_acc[x] == q;
                            assert(old_acc[x] < p);
                        }
                        if accept@.len() > old_acc.len() {
                            assert(accept@[accept@.len() - 1] == q);
                        }
                    }
                }
            }
            p = p + 1;
        }
        let dfa = Dfa {
            num_states: sets.len() as u32,
            alphabet: alphabet,
            transitions: edges,
            accept_states: accept,
        };
        proof {
            let labels = labels_of(sets@);
            assert forall|a: int, b: int| 0 <= a < labels.len() && 0 <= b < labels.len() && a != b implies #[trigger] labels[a] != #[trigger] labels[b] by {
                let v = list_views(sets@);
                assert(v[a] == sets@[a]@ && v[b] == sets@[b]@);
                assert(sorted_strict(v[a]) && sorted_strict(v[b]));
                if labels[a] == labels[b] {
                    lemma_sorted_same_set(v[a], v[b]);
                }
            }
            assert(is_subset_automaton(self, &dfa, labels));
            assert forall|q: u32, a: char|
                q < dfa.num_states && dfa.alphabet@.contains(a) implies #[trigger] dfa.has_key(q, a) by {
                assert(has_out(dfa.transitions@, q, a));
                let d = choose|d: u32| #[trigger] dfa.transitions@.contains((q, a, d));
                assert(dfa.has_edge(q, a, d));
            }
        }
        Some(dfa)
    }
}

} // verus!

verus! {

/// The least set that holds `start` and that no empty-word transition
/// leaves: the states in every such set.
pub open spec fn eps_closure(nfa: &Nfa, start: Set<u32>) -> Set<u32> {
    Set::new(
        |d: u32|
            forall|t: Set<u32>| start.subset_of(t) && eps_closed(nfa, t) ==> #[trigger] t.contains(d),
    )
}

/// The states the automaton can be in after reading `s` from the set `from`.
pub open spec fn nfa_reads(nfa: &Nfa, from: Set<u32>, s: Seq<char>) -> Set<u32>
    decreases s.len(),
{
    if s.len() == 0 {
        from
    } else {
        nfa_reads(nfa, eps_closure(nfa, move_set(nfa, from, s[0])), s.drop_first())
    }
}

/// The automaton accepts `s`: reading it from the closure of the start state
/// can end in an accept state.
pub open spec fn nfa_accepts(nfa: &Nfa, s: Seq<char>) -> bool {
    exists|q: u32| nfa_reads(nfa, eps_closure(nfa, set![0u32]), s).contains(q) && #[trigger] nfa.is_accept(q)
}

/// A set that is the least closed superset of `start` is the closure.
pub proof fn lemma_closure_unique(nfa: &Nfa, start: Set<u32>, c: Set<u32>)
    requires
        is_eps_closure(nfa, start, c),
    ensures
        c == eps_closure(nfa, start),
{
    let e = eps_closure(nfa, start);
    assert forall|d: u32| c.contains(d) implies e.contains(d) by {
        assert forall|t: Set<u32>| start.subset_of(t) && eps_closed(nfa, t) implies #[trigger] t.contains(d) by {
            assert(c.subset_of(t));
        }
    }
    assert forall|d: u32| e.contains(d) implies c.contains(d) by {
        assert(start.subset_of(c) && eps_closed(nfa, c));
    }
    assert(c =~= e);
}

/// The closure of the empty set is empty.
proof fn lemma_closure_of_empty(nfa: &Nfa)
    ensures
        eps_closure(nfa, Set::empty()) == Set::<u32>::empty(),
{
    let e = Set::<u32>::empty();
    assert(eps_closed(nfa, e));
    assert(e.subset_of(e));
    assert forall|d: u32| !eps_closure(nfa, e).contains(d) by {
        if eps_closure(nfa, e).contains(d) {
            assert(e.contains(d));
        }
    }
    assert(eps_closure(nfa, e) =~= e);
}

/// Reading one more symbol: the closure of the states reached from what was
/// read so far.
pub proof fn lemma_reads_push(nfa: &Nfa, from: Set<u32>, w: Seq<char>, a: char)
    ensures
        nfa_reads(nfa, from, w.push(a)) == eps_closure(nfa, move_set(nfa, nfa_reads(nfa, from, w), a)),
    decreases w.len(),
{
    if w.len() == 0 {
        assert(w.push(a).drop_first() =~= Seq::<char>::empty());
        assert(w.push(a)[0] == a);
        let x = eps_closure(nfa, move_set(nfa, from, a));
        assert(nfa_reads(nfa, x, Seq::<char>::empty()) == x);
        assert(nfa_reads(nfa, from, w.push(a)) == nfa_reads(nfa, x, w.push(a).drop_first()));
        assert(nfa_reads(nfa, from, w) == from);
    } else {
        let s1 = eps_closure(nfa, move_set(nfa, from, w[0]));
        assert(w.push(a)[0] == w[0]);
        assert(w.push(a).drop_first() =~= w.drop_first().push(a));
        lemma_reads_push(nfa, s1, w.drop_first(), a);
        assert(nfa_reads(nfa, from, w.push(a)) == nfa_reads(nfa, s1, w.push(a).drop_first()));
        assert(nfa_reads(nfa, from, w) == nfa_reads(nfa, s1, w.drop_first()));
    }
}

/// The set of `v` is the set of states reached by reading some word without
/// the empty-word marker from the closure of the start state.
pub open spec fn reached(nfa: &Nfa, v: Seq<u32>) -> bool {
    exists|w: Seq<char>|
        !w.contains(EMPTY_STRING) && #[trigger] nfa_reads(nfa, eps_closure(nfa, set![0u32]), w) == v.to_set()
}

/// Reading words from the closure of the start state reaches `u32::MAX`
/// distinct sets of states: more than a deterministic automaton with `u32`
/// state numbers can have.
pub open spec fn too_many_subsets(nfa: &Nfa) -> bool {
    exists|sets: Seq<Seq<u32>>|
        {
            &&& sets.len() == u32::MAX
            &&& distinct_state_sets(sets, nfa.num_states)
            &&& forall|k: int| 0 <= k < sets.len() ==> #[trigger] reached(nfa, sets[k])
        }
}

proof fn lemma_same_model_parts(n1: &Nfa, n2: &Nfa, m: Set<u32>, a: char)
    requires
        n1.model() == n2.model(),
    ensures
        forall|t: Set<u32>| #[trigger] eps_closed(n1, t) == eps_closed(n2, t),
        move_set(n1, m, a) == move_set(n2, m, a),
        forall|x: Set<u32>| #[trigger] eps_closure(n1, x) == eps_closure(n2, x),
{
    assert(n1.transitions@ == n2.transitions@);
    assert forall|q: u32, b: char, d: u32| #[trigger] n1.has_edge(q, b, d) == n2.has_edge(q, b, d) by {}
    assert forall|t: Set<u32>| #[trigger] eps_closed(n1, t) == eps_closed(n2, t) by {
        if eps_closed(n1, t) {
            assert forall|p: u32, d: u32| t.contains(p) && n2.has_edge(p, EMPTY_STRING, d) implies t.contains(d) by {
                assert(n1.has_edge(p, EMPTY_STRING, d));
            }
        }
        if eps_closed(n2, t) {
            assert forall|p: u32, d: u32| t.contains(p) && n1.has_edge(p, EMPTY_STRING, d) implies t.contains(d) by {
                assert(n2.has_edge(p, EMPTY_STRING, d));
            }
        }
    }
    assert forall|d: u32| move_set(n1, m, a).contains(d) <==> move_set(n2, m, a).contains(d) by {
        if move_set(n1, m, a).contains(d) {
            let q = choose|q: u32| m.contains(q) && #[trigger] n1.has_edge(q, a, d);
            assert(n2.has_edge(q, a, d));
        }
        if move_set(n2, m, a).contains(d) {
            let q = choose|q: u32| m.contains(q) && #[trigger] n2.has_edge(q, a, d);
            assert(n1.has_edge(q, a, d));
        }
    }
    assert(move_set(n1, m, a) =~= move_set(n2, m, a));
    assert forall|x: Set<u32>| #[trigger] eps_closure(n1, x) == eps_closure(n2, x) by {
        assert(eps_closure(n1, x) =~= eps_closure(n2, x));
    }
}

/// Two automata with the same model read every word alike.
pub proof fn lemma_reads_by_model(n1: &Nfa, n2: &Nfa, from: Set<u32>, s: Seq<char>)
    requires
        n1.model() == n2.model(),
    ensures
        nfa_reads(n1, from, s) == nfa_reads(n2, from, s),
    decreases s.len(),
{
    if s.len() > 0 {
        let a = s[0];
        lemma_same_model_parts(n1, n2, from, a);
        let m = move_set(n1, from, a);
        lemma_reads_by_model(n1, n2, eps_closure(n1, m), s.drop_first());
    }
}

/// Two automata with the same model accept the same words.
pub proof fn lemma_accepts_by_model(n1: &Nfa, n2: &Nfa, s: Seq<char>)
    requires
        n1.model() == n2.model(),
    ensures
        nfa_accepts(n1, s) == nfa_accepts(n2, s),
{
    assert(n1.accept_states@ == n2.accept_states@);
    lemma_same_model_parts(n1, n2, set![0u32], EMPTY_STRING);
    lemma_reads_by_model(n1, n2, eps_closure(n1, set![0u32]), s);
    assert forall|q: u32| #[trigger] n1.is_accept(q) == n2.is_accept(q) by {}
    let r = nfa_reads(n1, eps_closure(n1, set![0u32]), s);
    assert(eps_closure(n1, set![0u32]) == eps_closure(n2, set![0u32]));
    assert(nfa_reads(n2, eps_closure(n2, set![0u32]), s) == r);
    if nfa_accepts(n1, s) {
        let q = choose|q: u32| r.contains(q) && #[trigger] n1.is_accept(q);
        assert(n2.is_accept(q));
    }
    if nfa_accepts(n2, s) {
        let q = choose|q: u32| r.contains(q) && #[trigger] n2.is_accept(q);
        assert(n1.is_accept(q));
    }
}

/// Nothing is read from the empty set.
proof fn lemma_reads_empty(nfa: &Nfa, s: Seq<char>)
    ensures
        nfa_reads(nfa, Set::empty(), s) == Set::<u32>::empty(),
    decreases s.len(),
{
    if s.len() > 0 {
        assert(move_set(nfa, Set::empty(), s[0]) =~= Set::<u32>::empty());
        lemma_closure_of_empty(nfa);
        lemma_reads_empty(nfa, s.drop_first());
    }
}

/// A state of a subset automaton reads a word as its set of states does.
proof fn lemma_subset_state_reads(nfa: &Nfa, dfa: &Dfa, labels: Seq<Set<u32>>, i: u32, s: Seq<char>)
    requires
        nfa.wf(),
        dfa.wf(),
        dfa.complete(),
        forall|c: char| #[trigger] dfa.alphabet@.contains(c) <==> (nfa.alphabet@.contains(c) && c != EMPTY_STRING),
        is_subset_automaton(nfa, dfa, labels),
        i < dfa.num_states,
        !s.contains(EMPTY_STRING),
    ensures
        dfa.run_from(i, s) == Ok::<bool, Error>(
            exists|q: u32| nfa_reads(nfa, labels[i as int], s).contains(q) && #[trigger] nfa.is_accept(q),
        ),
    decreases s.len(),
{
    if s.len() == 0 {
        assert(dfa.is_accept(i) <==> exists|q: u32| labels[i as int].contains(q) && #[trigger] nfa.is_accept(q));
    } else {
        let a = s[0];
        assert(a != EMPTY_STRING);
        assert(!s.drop_first().contains(EMPTY_STRING)) by {
            if s.drop_first().contains(EMPTY_STRING) {
                let k = choose|k: int| 0 <= k < s.drop_first().len() && s.drop_first()[k] == EMPTY_STRING;
                assert(s[k + 1] == EMPTY_STRING);
            }
        }
        if !dfa.alphabet@.contains(a) {
            assert(!nfa.alphabet@.contains(a));
            assert(move_set(nfa, labels[i as int], a) =~= Set::<u32>::empty()) by {
                assert forall|d: u32| !move_set(nfa, labels[i as int], a).contains(d) by {
                    if move_set(nfa, labels[i as int], a).contains(d) {
                        let q = choose|q: u32| labels[i as int].contains(q) && #[trigger] nfa.has_edge(q, a, d);
                        let k = choose|k: int| 0 <= k < nfa.transitions@.len() && nfa.transitions@[k] == (q, a, d);
                        assert(nfa.alphabet@.contains(nfa.transitions@[k].1));
                    }
                }
            }
            lemma_closure_of_empty(nfa);
            lemma_reads_empty(nfa, s.drop_first());
            assert(nfa_reads(nfa, labels[i as int], s) == Set::<u32>::empty());
        } else {
            dfa.lemma_complete_target(i, a);
            let j = dfa.target(i, a);
            assert(dfa.has_edge(i, a, j));
            lemma_closure_unique(nfa, move_set(nfa, labels[i as int], a), labels[j as int]);
            lemma_subset_state_reads(nfa, dfa, labels, j, s.drop_first());
        }
    }
}

/// The subset automaton reads every word without the empty-word marker as
/// the automaton it was built from: it accepts exactly the words that the
/// automaton accepts.
pub proof fn lemma_subset_automaton_language(nfa: &Nfa, dfa: &Dfa, labels: Seq<Set<u32>>, s: Seq<char>)
    requires
        nfa.wf(),
        dfa.wf(),
        dfa.complete(),
        forall|c: char| #[trigger] dfa.alphabet@.contains(c) <==> (nfa.alphabet@.contains(c) && c != EMPTY_STRING),
        is_subset_automaton(nfa, dfa, labels),
        !s.contains(EMPTY_STRING),
    ensures
        dfa.run_from(0, s) == Ok::<bool, Error>(nfa_accepts(nfa, s)),
{
    lemma_closure_unique(nfa, set![0u32], labels[0]);
    lemma_subset_state_reads(nfa, dfa, labels, 0, s);
}

} // verus!

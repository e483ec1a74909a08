use crate::language::{Error, EMPTY_STRING};
use crate::minimize::is_minimization;
use crate::nfa::{
    is_subset_automaton, lemma_subset_automaton_language, literals, nfa_accepts, thompson,
    too_many_subsets, lemma_accepts_by_model, vec_contains_char,
    vec_contains_u32, Nfa,
};
use crate::util::is_valid_regex;
use crate::traits::{Alphabet, AlphabetIter, State, StateIter, Transition};
use crate::util::{sorted_strict, without_symbol};
use vstd::prelude::*;

verus! {

/// A deterministic finite automaton. Its states are `0..num_states`, state
/// `0` is the start state, and each transition `(source, symbol, target)` is
/// the only one for its source and symbol.
#[derive(Debug)]
pub struct Dfa {
    pub num_states: u32,
    pub alphabet: Vec<char>,
    pub transitions: Vec<(u32, char, u32)>,
    pub accept_states: Vec<u32>,
}

/// No two transitions of `e` share a source and a symbol.
pub open spec fn keys_unique(e: Seq<(u32, char, u32)>) -> bool {
    forall|i: int, j: int|
        0 <= i < e.len() && 0 <= j < e.len() && (#[trigger] e[i]).0 == (#[trigger] e[j]).0
            && e[i].1 == e[j].1 ==> i == j
}

impl Dfa {
    pub open spec fn has_edge(&self, q: u32, a: char, d: u32) -> bool {
        self.transitions@.contains((q, a, d))
    }

    pub open spec fn is_accept(&self, q: u32) -> bool {
        self.accept_states@.contains(q)
    }

    /// Transitions join states on symbols of the alphabet, one for each source
    /// and symbol at most; the alphabet has no symbol twice; the accept states
    /// are states, in increasing order.
    pub open spec fn wf(&self) -> bool {
        &&& 1 <= self.num_states
        &&& self.alphabet@.no_duplicates()
        &&& forall|i: int|
            0 <= i < self.transitions@.len() ==> {
                let t = #[trigger] self.transitions@[i];
                t.0 < self.num_states && t.2 < self.num_states && self.alphabet@.contains(t.1)
            }
        &&& keys_unique(self.transitions@)
        &&& sorted_strict(self.accept_states@)
        &&& forall|i: int|
            0 <= i < self.accept_states@.len() ==> #[trigger] self.accept_states@[i]
                < self.num_states
    }

    /// There is a transition from `q` on `a`.
    pub open spec fn has_key(&self, q: u32, a: char) -> bool {
        exists|d: u32| self.has_edge(q, a, d)
    }

    /// Every state has a transition on every symbol of the alphabet.
    pub open spec fn complete(&self) -> bool {
        forall|q: u32, a: char|
            q < self.num_states && self.alphabet@.contains(a) ==> #[trigger] self.has_key(q, a)
    }

    /// The state reached from `q` on `a`, where there is one.
    pub open spec fn step(&self, q: u32, a: char) -> Option<u32> {
        if exists|d: u32| self.has_edge(q, a, d) {
            Some(choose|d: u32| self.has_edge(q, a, d))
        } else {
            None
        }
    }

    /// The outcome of reading `s` from state `q`: a missing transition is an
    /// error, but a complete automaton rejects a symbol outside its alphabet;
    /// otherwise the input is accepted exactly when the state reached is
    /// accepting.
    pub open spec fn run_from(&self, q: u32, s: Seq<char>) -> Result<bool, Error>
        decreases s.len(),
    {
        if s.len() == 0 {
            Ok(self.is_accept(q))
        } else if !self.alphabet@.contains(s[0]) {
            if self.complete() {
                Ok(false)
            } else {
                Err(Error::IncompleteAutomaton)
            }
        } else {
            match self.step(q, s[0]) {
                Some(d) => self.run_from(d, s.drop_first()),
                None => Err(Error::IncompleteAutomaton),
            }
        }
    }

    /// The automaton with the single state `0`, an empty alphabet, no
    /// transitions and no accept state.
    pub fn new() -> (r: Self)
        ensures
            r.wf(),
            r.num_states == 1,
            r.alphabet@.len() == 0,
            r.transitions@.len() == 0,
            r.accept_states@.len() == 0,
    {
        Dfa { num_states: 1, alphabet: Vec::new(), transitions: Vec::new(), accept_states: Vec::new() }
    }

    /// The minimized automaton of a regular expression: the expression's
    /// Thompson automaton is built, made deterministic and minimized. It
    /// accepts the words that the expression's automaton accepts, reads every
    /// word as the deterministic automaton does, and no two of its states give
    /// the same outcome on every word. A valid expression fails only where its
    /// automaton reaches more sets of states than `u32` can number.
    pub fn from(regex: &str) -> (r: Result<Self, Error>)
        requires
            regex@.len() <= 0x7fff_fffe,
        ensures
            r == Err::<Dfa, Error>(Error::MalformedRegex) <==> !is_valid_regex(regex@),
            r is Err ==> r == Err::<Dfa, Error>(Error::MalformedRegex) || r == Err::<Dfa, Error>(
                Error::TooManyStates,
            ),
            r == Err::<Dfa, Error>(Error::TooManyStates) ==> is_valid_regex(regex@) && exists|nfa: Nfa|
                nfa.wf() && nfa.model() == thompson(regex@) && #[trigger] too_many_subsets(&nfa),
            r matches Ok(d) ==> {
                &&& d.wf()
                &&& d.complete()
                &&& d.is_minimal()
                &&& forall|c: char|
                    #[trigger] d.alphabet@.contains(c) <==> (literals(regex@).contains(c) && c != EMPTY_STRING)
                &&& exists|nfa: Nfa, d0: Dfa, labels: Seq<Set<u32>>|
                    {
                        &&& nfa.wf()
                        &&& nfa.model() == thompson(regex@)
                        &&& d0.wf()
                        &&& d0.complete()
                        &&& d0.alphabet@ == without_symbol(nfa.alphabet@, EMPTY_STRING)
                        &&& is_subset_automaton(&nfa, &d0, labels)
                        &&& d.alphabet@ == d0.alphabet@
                        &&& is_minimization(&d0, &d)
                        &&& forall|s: Seq<char>| #[trigger] d.run_from(0, s) == d0.run_from(0, s)
                        &&& forall|s: Seq<char>|
                            !s.contains(EMPTY_STRING) ==> #[trigger] d.run_from(0, s) == Ok::<bool, Error>(
                                nfa_accepts(&nfa, s),
                            )
                    }
            },
    {
        let nfa = match Nfa::from(regex) {
            Ok(nfa) => nfa,
            Err(e) => {
                return Err(e);
            },
        };
        let dfa0 = match nfa.to_dfa() {
            Some(d) => d,
            None => {
                assert(too_many_subsets(&nfa));
                return Err(Error::TooManyStates);
            },
        };
        let ghost d0 = dfa0;
        let mut dfa = dfa0;
        let _ = dfa.minimize();
        proof {
            let labels = choose|labels: Seq<Set<u32>>| is_subset_automaton(&nfa, &d0, labels);
            assert(is_subset_automaton(&nfa, &d0, labels));
            assert forall|s: Seq<char>|
                !s.contains(EMPTY_STRING) implies #[trigger] dfa.run_from(0, s) == Ok::<bool, Error>(
                    nfa_accepts(&nfa, s),
                ) by {
                lemma_subset_automaton_language(&nfa, &d0, labels, s);
            }
        }
        Ok(dfa)
    }

    pub fn start_state(&self) -> (r: u32)
        ensures
            r == 0,
    {
        0
    }

    pub fn is_accept_state(&self, state: u32) -> (r: bool)
        ensures
            r == self.is_accept(state),
    {
        vec_contains_u32(&self.accept_states, state)
    }

    /// The target of the transition from `key.0` on `key.1`, if any.
    pub fn get_transition(&self, key: (u32, char)) -> (r: Option<u32>)
        requires
            self.wf(),
        ensures
            r == self.step(key.0, key.1),
    {
        let mut i: usize = 0;
        while i < self.transitions.len()
            invariant
                self.wf(),
                i <= self.transitions.len(),
                forall|j: int| 0 <= j < i ==> !((#[trigger] self.transitions@[j]).0 == key.0 && self.transitions@[j].1 == key.1),
            decreases self.transitions.len() - i,
        {
            let t = self.transitions[i];
            if t.0 == key.0 && t.1 == key.1 {
                proof {
                    assert(self.transitions@[i as int] == t);
                    assert(self.has_edge(key.0, key.1, t.2));
                    let d = choose|d: u32| self.has_edge(key.0, key.1, d);
                    let j = choose|j: int| 0 <= j < self.transitions@.len() && self.transitions@[j] == (key.0, key.1, d);
                    assert(j == i);
                }
                return Some(t.2);
            }
            i = i + 1;
        }
        proof {
            assert forall|d: u32| !self.has_edge(key.0, key.1, d) by {
                if self.has_edge(key.0, key.1, d) {
                    let j = choose|j: int| 0 <= j < self.transitions@.len() && self.transitions@[j] == (key.0, key.1, d);
                    assert(!((self.transitions@[j]).0 == key.0 && self.transitions@[j].1 == key.1));
                }
            }
        }
        None
    }

    /// Checks that every state has a transition on every symbol.
    pub fn is_complete(&self) -> (r: bool)
        requires
            self.wf(),
        ensures
            r == self.complete(),
    {
        let mut q: u32 = 0;
        while q < self.num_states
            invariant
                self.wf(),
                q <= self.num_states,
                forall|p: u32, a: char|
                    p < q && self.alphabet@.contains(a) ==> #[trigger] self.has_key(p, a),
            decreases self.num_states - q,
        {
            let mut k: usize = 0;
            while k < self.alphabet.len()
                invariant
                    self.wf(),
                    q < self.num_states,
                    k <= self.alphabet.len(),
                    forall|p: u32, a: char|
                        p < q && self.alphabet@.contains(a) ==> #[trigger] self.has_key(p, a),
                    forall|j: int| 0 <= j < k ==> #[trigger] self.has_key(q, self.alphabet@[j]),
                decreases self.alphabet.len() - k,
            {
                let a = self.alphabet[k];
                match self.get_transition((q, a)) {
                    Some(_) => {},
                    None => {
                        proof {
                            assert(self.alphabet@.contains(a) && q < self.num_states);
                            assert(!self.has_key(q, a));
                        }
                        return false;
                    },
                }
                k = k + 1;
            }
            proof {
                assert forall|p: u32, a: char|
                    p < q + 1 && self.alphabet@.contains(a) implies #[trigger] self.has_key(p, a) by {
                    if p == q {
                        let j = choose|j: int| 0 <= j < self.alphabet@.len() && self.alphabet@[j] == a;
                        assert(self.has_key(q, self.alphabet@[j]));
                    }
                }
            }
            q = q + 1;
        }
        true
    }

    /// Reads `input` from the start state. A state without a transition on
    /// the symbol read is an error; a complete automaton rejects a symbol
    /// outside its alphabet.
    pub fn run(&self, input: &str) -> (r: Result<bool, Error>)
        requires
            self.wf(),
        ensures
            r == self.run_from(0, input@),
    {
        let chars = crate::util::chars_of(input);
        assert(chars@.subrange(0, chars@.len() as int) =~= input@);
        let complete = self.is_complete();
        let mut current: u32 = 0;
        let mut i: usize = 0;
        while i < chars.len()
            invariant
                self.wf(),
                complete == self.complete(),
                i <= chars.len(),
                chars@ == input@,
                self.run_from(0, input@) == self.run_from(current, chars@.subrange(i as int, chars@.len() as int)),
            decreases chars.len() - i,
        {
            let c = chars[i];
            let ghost rest = chars@.subrange(i as int, chars@.len() as int);
            assert(rest[0] == c);
            assert(rest.drop_first() =~= chars@.subrange(i as int + 1, chars@.len() as int));
            if !vec_contains_char(&self.alphabet, c) {
                if complete {
                    return Ok(false);
                } else {
                    return Err(Error::IncompleteAutomaton);
                }
            }
            match self.get_transition((current, c)) {
                Some(next) => {
                    current = next;
                },
                None => {
                    return Err(Error::IncompleteAutomaton);
                },
            }
            i = i + 1;
        }
        assert(chars@.subrange(i as int, chars@.len() as int).len() == 0);
        Ok(self.is_accept_state(current))
    }
}


/// A duplicate-free list whose transitions all come from a list with unique
/// keys has unique keys too.
pub proof fn lemma_keys_unique_sub(e: Seq<(u32, char, u32)>, r: Seq<(u32, char, u32)>)
    requires
        keys_unique(e),
        r.no_duplicates(),
        forall|t: (u32, char, u32)| r.contains(t) ==> e.contains(t),
    ensures
        keys_unique(r),
{
    assert forall|i: int, j: int|
        0 <= i < r.len() && 0 <= j < r.len() && (#[trigger] r[i]).0 == (#[trigger] r[j]).0 && r[i].1
            == r[j].1 implies i == j by {
        assert(r.contains(r[i]) && r.contains(r[j]));
        let a = choose|a: int| 0 <= a < e.len() && e[a] == r[i];
        let b = choose|b: int| 0 <= b < e.len() && e[b] == r[j];
        assert(e[a].0 == e[b].0);
    }
}

/// Keys unique imply no transition occurs twice.
pub proof fn lemma_keys_unique_no_dup(e: Seq<(u32, char, u32)>)
    requires
        keys_unique(e),
    ensures
        e.no_duplicates(),
{
    assert forall|i: int, j: int| 0 <= i < j < e.len() implies e[i] != e[j] by {
        if e[i] == e[j] {
            assert(e[i].0 == e[j].0);
        }
    }
}

impl Default for Dfa {
    /// The automaton of [`Dfa::new`].
    fn default() -> (r: Self)
        ensures
            r.wf(),
            r.num_states == 1,
            r.alphabet@.len() == 0,
            r.transitions@.len() == 0,
            r.accept_states@.len() == 0,
    {
        Dfa::new()
    }
}

impl State for Dfa {
    /// Appends the state `num_states`; an automaton that already has
    /// `u32::MAX` states is left as it is.
    fn add_state(&mut self)
        ensures
            old(self).wf() ==> final(self).wf(),
            final(self).num_states == if old(self).num_states < u32::MAX {
                old(self).num_states + 1
            } else {
                old(self).num_states as int
            },
            final(self).alphabet@ == old(self).alphabet@,
            final(self).transitions@ == old(self).transitions@,
            final(self).accept_states@ == old(self).accept_states@,
    {
        if self.num_states < u32::MAX {
            self.num_states = self.num_states + 1;
        }
    }

    /// Removes the last state, with the transitions that touch it, unless it
    /// is the only state.
    fn remove_state(&mut self)
        ensures
            old(self).wf() ==> final(self).wf(),
            old(self).num_states <= 1 ==> *final(self) == *old(self),
            old(self).num_states > 1 ==> {
                let last = (old(self).num_states - 1) as u32;
                &&& final(self).num_states == last
                &&& final(self).alphabet@ == old(self).alphabet@
                &&& forall|q: u32, a: char, d: u32|
                    final(self).has_edge(q, a, d) <==> (old(self).has_edge(q, a, d) && q != last
                        && d != last)
                &&& sorted_strict(old(self).accept_states@) ==> forall|q: u32|
                    final(self).is_accept(q) <==> (old(self).is_accept(q) && q != last)
            },
    {
        if self.num_states <= 1 {
            return;
        }
        let last = self.num_states - 1;
        let kept = crate::util::edges_avoiding_state(&self.transitions, last);
        self.transitions = kept;
        if crate::util::is_sorted_strict(&self.accept_states) {
            crate::util::remove_sorted(&mut self.accept_states, last);
        }
        self.num_states = last;
        proof {
            if old(self).wf() {
                lemma_keys_unique_no_dup(old(self).transitions@);
                lemma_keys_unique_sub(old(self).transitions@, self.transitions@);
                assert forall|i: int| 0 <= i < self.transitions@.len() implies {
                    let t = #[trigger] self.transitions@[i];
                    t.0 < self.num_states && t.2 < self.num_states && self.alphabet@.contains(t.1)
                } by {
                    let t = self.transitions@[i];
                    assert(self.transitions@.contains(t));
                    let j = choose|j: int|
                        0 <= j < old(self).transitions@.len() && old(self).transitions@[j] == t;
                }
                assert forall|i: int| 0 <= i < self.accept_states@.len() implies #[trigger] self.accept_states@[i]
                    < self.num_states by {
                    let q = self.accept_states@[i];
                    assert(self.accept_states@.contains(q));
                    let j = choose|j: int|
                        0 <= j < old(self).accept_states@.len() && old(self).accept_states@[j] == q;
                }
            }
        }
    }

    /// Marks `state` as accepting; a number that is not a state is ignored.
    fn add_accept_state(&mut self, state: u32)
        ensures
            old(self).wf() ==> final(self).wf(),
            final(self).num_states == old(self).num_states,
            final(self).alphabet@ == old(self).alphabet@,
            final(self).transitions@ == old(self).transitions@,
            sorted_strict(old(self).accept_states@) ==> forall|q: u32|
                final(self).is_accept(q) <==> (old(self).is_accept(q) || (q == state && state
                    < old(self).num_states)),
    {
        if state < self.num_states && crate::util::is_sorted_strict(&self.accept_states) {
            crate::util::insert_sorted(&mut self.accept_states, state);
            proof {
                if old(self).wf() {
                    assert forall|i: int| 0 <= i < self.accept_states@.len() implies #[trigger] self.accept_states@[i]
                        < self.num_states by {
                        let q = self.accept_states@[i];
                        assert(self.accept_states@.contains(q));
                        if q != state {
                            let j = choose|j: int|
                                0 <= j < old(self).accept_states@.len() && old(self).accept_states@[j] == q;
                        }
                    }
                }
            }
        }
    }

    /// Makes `state` non-accepting.
    fn remove_accept_state(&mut self, target: u32)
        ensures
            old(self).wf() ==> final(self).wf(),
            final(self).num_states == old(self).num_states,
            final(self).alphabet@ == old(self).alphabet@,
            final(self).transitions@ == old(self).transitions@,
            sorted_strict(old(self).accept_states@) ==> forall|q: u32|
                final(self).is_accept(q) <==> (old(self).is_accept(q) && q != target),
    {
        if crate::util::is_sorted_strict(&self.accept_states) {
            crate::util::remove_sorted(&mut self.accept_states, target);
            proof {
                if old(self).wf() {
                    assert forall|i: int| 0 <= i < self.accept_states@.len() implies #[trigger] self.accept_states@[i]
                        < self.num_states by {
                        let q = self.accept_states@[i];
                        assert(self.accept_states@.contains(q));
                        let j = choose|j: int|
                            0 <= j < old(self).accept_states@.len() && old(self).accept_states@[j] == q;
                    }
                }
            }
        }
    }
}

impl Alphabet for Dfa {
    /// Appends `symbol` to the alphabet unless it is there already.
    fn add_symbol(&mut self, symbol: char)
        ensures
            old(self).wf() ==> final(self).wf(),
            final(self).num_states == old(self).num_states,
            final(self).alphabet@ == if old(self).alphabet@.contains(symbol) {
                old(self).alphabet@
            } else {
                old(self).alphabet@.push(symbol)
            },
            final(self).transitions@ == old(self).transitions@,
            final(self).accept_states@ == old(self).accept_states@,
    {
        if !vec_contains_char(&self.alphabet, symbol) {
            self.alphabet.push(symbol);
            proof {
                if old(self).wf() {
                    assert forall|i: int| 0 <= i < self.transitions@.len() implies {
                        let t = #[trigger] self.transitions@[i];
                        t.0 < self.num_states && t.2 < self.num_states && self.alphabet@.contains(t.1)
                    } by {
                        let t = self.transitions@[i];
                        assert(old(self).alphabet@.contains(t.1));
                        let j = choose|j: int| 0 <= j < old(self).alphabet@.len() && old(self).alphabet@[j] == t.1;
                        assert(self.alphabet@[j] == t.1);
                    }
                    assert(self.alphabet@[old(self).alphabet@.len() as int] == symbol);
                }
            }
        }
    }

    /// Removes `symbol` from the alphabet, with the transitions on it.
    fn remove_symbol(&mut self, symbol: char)
        ensures
            old(self).wf() ==> final(self).wf(),
            final(self).num_states == old(self).num_states,
            final(self).alphabet@ == without_symbol(old(self).alphabet@, symbol),
            forall|q: u32, a: char, d: u32|
                final(self).has_edge(q, a, d) <==> (old(self).has_edge(q, a, d) && a != symbol),
            final(self).accept_states@ == old(self).accept_states@,
    {
        self.alphabet = crate::util::chars_without(&self.alphabet, symbol);
        self.transitions = crate::util::edges_avoiding_symbol(&self.transitions, symbol);
        proof {
            if old(self).wf() {
                lemma_keys_unique_no_dup(old(self).transitions@);
                lemma_keys_unique_sub(old(self).transitions@, self.transitions@);
                assert forall|i: int| 0 <= i < self.transitions@.len() implies {
                    let t = #[trigger] self.transitions@[i];
                    t.0 < self.num_states && t.2 < self.num_states && self.alphabet@.contains(t.1)
                } by {
                    let t = self.transitions@[i];
                    assert(self.transitions@.contains(t));
                    let j = choose|j: int|
                        0 <= j < old(self).transitions@.len() && old(self).transitions@[j] == t;
                }
            }
        }
    }
}

impl Transition for Dfa {
    /// Adds the transition from `source.0` on `source.1` to `target`, which
    /// must be the first for that state and symbol.
    fn add_transition(&mut self, source: &(u32, char), target: u32) -> (r: Result<(), Error>)
        ensures
            old(self).wf() ==> final(self).wf(),
            source.0 >= old(self).num_states ==> r == Err::<(), Error>(Error::InvalidState),
            source.0 < old(self).num_states && target >= old(self).num_states ==> r == Err::<
                (),
                Error,
            >(Error::InvalidTarget),
            source.0 < old(self).num_states && target < old(self).num_states
                && !old(self).alphabet@.contains(source.1) ==> r == Err::<(), Error>(
                Error::InvalidSymbol,
            ),
            source.0 < old(self).num_states && target < old(self).num_states
                && old(self).alphabet@.contains(source.1) && old(self).has_key(source.0, source.1)
                ==> r == Err::<(), Error>(Error::DuplicateTransition),
            source.0 < old(self).num_states && target < old(self).num_states
                && old(self).alphabet@.contains(source.1) && !old(self).has_key(source.0, source.1)
                ==> r is Ok && final(self).transitions@ == old(self).transitions@.push(
                (source.0, source.1, target),
            ),
            r is Err ==> *final(self) == *old(self),
            final(self).num_states == old(self).num_states,
            final(self).alphabet@ == old(self).alphabet@,
            final(self).accept_states@ == old(self).accept_states@,
    {
        if source.0 >= self.num_states {
            return Err(Error::InvalidState);
        }
        if target >= self.num_states {
            return Err(Error::InvalidTarget);
        }
        if !vec_contains_char(&self.alphabet, source.1) {
            return Err(Error::InvalidSymbol);
        }
        if self.get_transition_any((source.0, source.1)) {
            return Err(Error::DuplicateTransition);
        }
        self.transitions.push((source.0, source.1, target));
        proof {
            if old(self).wf() {
                assert forall|i: int, j: int|
                    0 <= i < self.transitions@.len() && 0 <= j < self.transitions@.len() && (#[trigger] self.transitions@[i]).0
                        == (#[trigger] self.transitions@[j]).0 && self.transitions@[i].1 == self.transitions@[j].1 implies i == j by {
                    let l = old(self).transitions@.len() as int;
                    if i < l && j < l {
                        assert(old(self).transitions@[i] == self.transitions@[i]);
                        assert(old(self).transitions@[j] == self.transitions@[j]);
                    } else if i < l {
                        assert(old(self).has_edge(source.0, source.1, old(self).transitions@[i].2));
                    } else if j < l {
                        assert(old(self).has_edge(source.0, source.1, old(self).transitions@[j].2));
                    }
                }
            }
        }
        Ok(())
    }
}

impl StateIter for Dfa {
    /// True when the start state is the only state.
    fn is_empty(&self) -> (r: bool)
        ensures
            r == (self.num_states == 1),
    {
        self.num_states == 1
    }

    /// The states `0..num_states`.
    fn states(&self) -> (r: Vec<u32>)
        ensures
            r@ == Seq::new(self.num_states as nat, |i: int| i as u32),
    {
        crate::util::range_vec(self.num_states)
    }

    /// The accept states, in increasing order.
    fn accept_states(&self) -> (r: Vec<u32>)
        ensures
            r@ == self.accept_states@,
    {
        self.accept_states.clone()
    }
}

impl AlphabetIter for Dfa {
    fn alphabet(&self) -> (r: Vec<char>)
        ensures
            r@ == self.alphabet@,
    {
        self.alphabet.clone()
    }
}

impl Dfa {
    /// Whether there is a transition from `key.0` on `key.1`.
    fn get_transition_any(&self, key: (u32, char)) -> (r: bool)
        ensures
            r == self.has_key(key.0, key.1),
    {
        let mut i: usize = 0;
        while i < self.transitions.len()
            invariant
                i <= self.transitions.len(),
                forall|j: int| 0 <= j < i ==> !((#[trigger] self.transitions@[j]).0 == key.0 && self.transitions@[j].1 == key.1),
            decreases self.transitions.len() - i,
        {
            let t = self.transitions[i];
            if t.0 == key.0 && t.1 == key.1 {
                assert(self.transitions@[i as int] == t);
                assert(self.has_edge(key.0, key.1, t.2));
                return true;
            }
            i = i + 1;
        }
        proof {
            assert forall|d: u32| !self.has_edge(key.0, key.1, d) by {
                if self.has_edge(key.0, key.1, d) {
                    let j = choose|j: int| 0 <= j < self.transitions@.len() && self.transitions@[j] == (key.0, key.1, d);
                    assert(!((self.transitions@[j]).0 == key.0 && self.transitions@[j].1 == key.1));
                }
            }
        }
        false
    }
}

} // verus!

verus! {

/// The round trip: the deterministic automaton made from the Thompson
/// automaton of `p`, and any automaton that accepts exactly the words of a
/// Thompson automaton of `p` (as the result of `Dfa::from` does), read every
/// word without the empty-word marker alike.
pub proof fn lemma_pattern_round_trip(
    p: Seq<char>,
    nfa: &Nfa,
    d0: &Dfa,
    labels: Seq<Set<u32>>,
    other: &Nfa,
    d: &Dfa,
    s: Seq<char>,
)
    requires
        nfa.wf(),
        nfa.model() == thompson(p),
        d0.wf(),
        d0.complete(),
        forall|c: char| #[trigger] d0.alphabet@.contains(c) <==> (nfa.alphabet@.contains(c) && c != EMPTY_STRING),
        is_subset_automaton(nfa, d0, labels),
        other.model() == thompson(p),
        forall|w: Seq<char>|
            !w.contains(EMPTY_STRING) ==> #[trigger] d.run_from(0, w) == Ok::<bool, Error>(nfa_accepts(other, w)),
        !s.contains(EMPTY_STRING),
    ensures
        d.run_from(0, s) == d0.run_from(0, s),
{
    lemma_subset_automaton_language(nfa, d0, labels, s);
    lemma_accepts_by_model(nfa, other, s);
}

/// Two automata that each accept exactly the words of a Thompson automaton of
/// the same pattern (as two results of `Dfa::from(p)` do) read every word
/// without the empty-word marker alike.
pub proof fn lemma_pattern_same_language(
    p: Seq<char>,
    n1: &Nfa,
    d1: &Dfa,
    n2: &Nfa,
    d2: &Dfa,
    s: Seq<char>,
)
    requires
        n1.model() == thompson(p),
        n2.model() == thompson(p),
        forall|w: Seq<char>|
            !w.contains(EMPTY_STRING) ==> #[trigger] d1.run_from(0, w) == Ok::<bool, Error>(nfa_accepts(n1, w)),
        forall|w: Seq<char>|
            !w.contains(EMPTY_STRING) ==> #[trigger] d2.run_from(0, w) == Ok::<bool, Error>(nfa_accepts(n2, w)),
        !s.contains(EMPTY_STRING),
    ensures
        d1.run_from(0, s) == d2.run_from(0, s),
{
    lemma_accepts_by_model(n1, n2, s);
}

} // verus!

use crate::language::EMPTY_STRING;
use crate::nfa::Nfa;
use crate::traits::{Alphabet, State, Transition};
use vstd::prelude::*;

verus! {

/// A four-state automaton over `A`, `B` and `C` with accept state `3`.
pub fn prepare_nfa() -> (r: Nfa)
    ensures
        r.wf(),
        r.num_states == 4,
        r.alphabet@ == seq![EMPTY_STRING, 'A', 'B', 'C'],
        r.transitions@ == seq![
            (0u32, 'A', 0u32),
            (0u32, 'A', 1u32),
            (0u32, 'B', 3u32),
            (0u32, 'C', 1u32),
            (1u32, 'C', 2u32),
            (2u32, 'B', 3u32),
            (2u32, 'B', 1u32),
        ],
        forall|q: u32| r.is_accept(q) <==> q == 3,
{
    let mut nfa = Nfa::new();
    assert(nfa.alphabet@ == seq![EMPTY_STRING]);
    nfa.add_state();
    nfa.add_state();
    nfa.add_state();
    nfa.add_symbol('A');
    nfa.add_symbol('B');
    nfa.add_symbol('C');
    assert(nfa.alphabet@ =~= seq![EMPTY_STRING, 'A', 'B', 'C']);
    assert(nfa.alphabet@[1] == 'A' && nfa.alphabet@[2] == 'B' && nfa.alphabet@[3] == 'C');
    assert(nfa.alphabet@.contains('A') && nfa.alphabet@.contains('B') && nfa.alphabet@.contains('C'));
    assert(nfa.transitions@.len() == 0);
    let ghost before = nfa.transitions@;
    let _ = nfa.add_transition(&(0, 'A'), 0);
    proof {
        assert(!before.contains((0u32, 'A', 0u32))) by {
            if before.contains((0u32, 'A', 0u32)) {
                let k = choose|k: int| 0 <= k < before.len() && before[k] == (0u32, 'A', 0u32);
            }
        }
        assert(nfa.transitions@ =~= seq![(0u32, 'A', 0u32)]);
    }
    let ghost before = nfa.transitions@;
    let _ = nfa.add_transition(&(0, 'A'), 1);
    proof {
        assert(!before.contains((0u32, 'A', 1u32))) by {
            if before.contains((0u32, 'A', 1u32)) {
                let k = choose|k: int| 0 <= k < before.len() && before[k] == (0u32, 'A', 1u32);
            }
        }
        assert(nfa.transitions@ =~= seq![(0u32, 'A', 0u32), (0u32, 'A', 1u32)]);
    }
    let ghost before = nfa.transitions@;
    let _ = nfa.add_transition(&(0, 'B'), 3);
    proof {
        assert(!before.contains((0u32, 'B', 3u32))) by {
            if before.contains((0u32, 'B', 3u32)) {
                let k = choose|k: int| 0 <= k < before.len() && before[k] == (0u32, 'B', 3u32);
            }
        }
        assert(nfa.transitions@ =~= seq![(0u32, 'A', 0u32), (0u32, 'A', 1u32), (0u32, 'B', 3u32)]);
    }
    let ghost before = nfa.transitions@;
    let _ = nfa.add_transition(&(0, 'C'), 1);
    proof {
        assert(!before.contains((0u32, 'C', 1u32))) by {
            if before.contains((0u32, 'C', 1u32)) {
                let k = choose|k: int| 0 <= k < before.len() && before[k] == (0u32, 'C', 1u32);
            }
        }
        assert(nfa.transitions@ =~= seq![(0u32, 'A', 0u32), (0u32, 'A', 1u32), (0u32, 'B', 3u32), (0u32, 'C', 1u32)]);
    }
    let ghost before = nfa.transitions@;
    let _ = nfa.add_transition(&(1, 'C'), 2);
    proof {
        assert(!before.contains((1u32, 'C', 2u32))) by {
            if before.contains((1u32, 'C', 2u32)) {
                let k = choose|k: int| 0 <= k < before.len() && before[k] == (1u32, 'C', 2u32);
            }
        }
        assert(nfa.transitions@ =~= seq![(0u32, 'A', 0u32), (0u32, 'A', 1u32), (0u32, 'B', 3u32), (0u32, 'C', 1u32), (1u32, 'C', 2u32)]);
    }
    let ghost before = nfa.transitions@;
    let _ = nfa.add_transition(&(2, 'B'), 3);
    proof {
        assert(!before.contains((2u32, 'B', 3u32))) by {
            if before.contains((2u32, 'B', 3u32)) {
                let k = choose|k: int| 0 <= k < before.len() && before[k] == (2u32, 'B', 3u32);
            }
        }
        assert(nfa.transitions@ =~= seq![(0u32, 'A', 0u32), (0u32, 'A', 1u32), (0u32, 'B', 3u32), (0u32, 'C', 1u32), (1u32, 'C', 2u32), (2u32, 'B', 3u32)]);
    }
    let ghost before = nfa.transitions@;
    let _ = nfa.add_transition(&(2, 'B'), 1);
    proof {
        assert(!before.contains((2u32, 'B', 1u32))) by {
            if before.contains((2u32, 'B', 1u32)) {
                let k = choose|k: int| 0 <= k < before.len() && before[k] == (2u32, 'B', 1u32);
            }
        }
        assert(nfa.transitions@ =~= seq![(0u32, 'A', 0u32), (0u32, 'A', 1u32), (0u32, 'B', 3u32), (0u32, 'C', 1u32), (1u32, 'C', 2u32), (2u32, 'B', 3u32), (2u32, 'B', 1u32)]);
    }
    nfa.add_accept_state(3);
    nfa
}

/// Two automata: `a ε b` on four states, and `a` on two.
pub fn prepare_nfa_pair() -> (r: (Nfa, Nfa))
    ensures
        r.0.wf(),
        r.1.wf(),
        r.0.num_states == 4,
        r.1.num_states == 2,
        r.0.alphabet@ == seq![EMPTY_STRING, 'a', 'b'],
        r.1.alphabet@ == seq![EMPTY_STRING, 'a'],
        r.0.transitions@ == seq![(0u32, 'a', 1u32), (1u32, EMPTY_STRING, 2u32), (2u32, 'b', 3u32)],
        r.1.transitions@ == seq![(0u32, 'a', 1u32)],
        forall|q: u32| r.0.is_accept(q) <==> q == 3,
        forall|q: u32| r.1.is_accept(q) <==> q == 1,
{
    let mut first = Nfa::new();
    let mut second = Nfa::new();
    first.add_state();
    first.add_state();
    first.add_state();
    first.add_symbol('a');
    first.add_symbol('b');
    assert(first.alphabet@ =~= seq![EMPTY_STRING, 'a', 'b']);
    assert(first.alphabet@[0] == EMPTY_STRING && first.alphabet@[1] == 'a' && first.alphabet@[2] == 'b');
    assert(first.alphabet@.contains(EMPTY_STRING) && first.alphabet@.contains('a') && first.alphabet@.contains('b'));
    assert(first.transitions@.len() == 0);
    let _ = first.add_transition(&(0, 'a'), 1);
    let _ = first.add_transition(&(1, EMPTY_STRING), 2);
    let _ = first.add_transition(&(2, 'b'), 3);
    first.add_accept_state(3);
    second.add_state();
    second.add_symbol('a');
    assert(second.alphabet@ =~= seq![EMPTY_STRING, 'a']);
    assert(second.alphabet@[1] == 'a');
    assert(second.alphabet@.contains('a'));
    assert(second.transitions@.len() == 0);
    let _ = second.add_transition(&(0, 'a'), 1);
    second.add_accept_state(1);
    (first, second)
}

} // verus!

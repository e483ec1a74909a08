use crate::language::{Error, EMPTY_STRING};
use crate::nfa::{links_to, merge_alphabet, push_links, shift_edges, shift_states, Nfa};
use vstd::prelude::*;

verus! {

/// Appends `src` to `dst`.
fn append_edges(dst: &mut Vec<(u32, char, u32)>, src: &Vec<(u32, char, u32)>)
    ensures
        final(dst)@ == old(dst)@ + src@,
{
    let mut i: usize = 0;
    while i < src.len()
        invariant
            i <= src.len(),
            dst@ == old(dst)@ + src@.take(i as int),
        decreases src.len() - i,
    {
        dst.push(src[i]);
        i = i + 1;
        assert(dst@ =~= old(dst)@ + src@.take(i as int));
    }
    assert(src@.take(i as int) =~= src@);
}

/// Concatenates `second` onto `first`. The states of `second` are renamed to
/// follow those of `first`; an empty-word transition leads from every accept
/// state of `first` (or from its last state, where it has none) to the start
/// of `second`; the accept states become those of `second`.
pub fn concat(first: &mut Nfa, second: Nfa) -> (r: Result<(), Error>)
    requires
        old(first).wf(),
        second.wf(),
        old(first).num_states + second.num_states <= u32::MAX,
    ensures
        r is Ok,
        final(first).wf(),
        final(first).num_states == old(first).num_states + second.num_states,
        final(first).alphabet@ == merge_alphabet(old(first).alphabet@, second.alphabet@),
        final(first).transitions@ == old(first).transitions@ + shift_edges(
            second.transitions@,
            old(first).num_states as int,
        ) + if old(first).accept_states@.len() == 0 {
            seq![((old(first).num_states - 1) as u32, EMPTY_STRING, old(first).num_states)]
        } else {
            links_to(old(first).accept_states@, EMPTY_STRING, old(first).num_states)
        },
        final(first).accept_states@ == shift_states(
            second.accept_states@,
            old(first).num_states as int,
        ),
{
    let mut other = second;
    first.merge_alphabet_from(&other.alphabet);
    let increment = first.last_added_state() + 1;
    other.increment_states(increment);
    let ghost mid = first.transitions@;
    append_edges(&mut first.transitions, &other.transitions);
    if first.accept_states.len() == 0 {
        first.transitions.push((increment - 1, EMPTY_STRING, increment));
    } else {
        push_links(&mut first.transitions, &first.accept_states.clone(), EMPTY_STRING, increment);
    }
    first.accept_states = other.accept_states;
    first.num_states = other.num_states;
    proof {
        let links = if old(first).accept_states@.len() == 0 {
            seq![((old(first).num_states - 1) as u32, EMPTY_STRING, old(first).num_states)]
        } else {
            links_to(old(first).accept_states@, EMPTY_STRING, old(first).num_states)
        };
        assert(first.transitions@ =~= old(first).transitions@ + shift_edges(
            second.transitions@, increment as int) + links);
        assert forall|k: int| 0 <= k < first.transitions@.len() implies {
            let t = #[trigger] first.transitions@[k];
            t.0 < first.num_states && t.2 < first.num_states && first.alphabet@.contains(t.1)
        } by {
            let a = old(first).transitions@.len() as int;
            let b = a + second.transitions@.len();
            if k < a {
                assert(old(first).transitions@[k] == first.transitions@[k]);
                assert(old(first).alphabet@.contains(first.transitions@[k].1));
            } else if k < b {
                assert(other.transitions@[k - a] == first.transitions@[k]);
                assert(second.alphabet@.contains(second.transitions@[k - a].1));
            } else {
                assert(links[k - b] == first.transitions@[k]);
                assert(old(first).alphabet@.contains(EMPTY_STRING));
                if old(first).accept_states@.len() != 0 {
                    assert(old(first).accept_states@[k - b] < old(first).num_states);
                }
            }
        }
    }
    Ok(())
}

/// Applies the Kleene star: a new accepting start state `0` is put before
/// the others, and an empty-word transition leads from every accept state,
/// `0` included, to the former start state, now `1`.
pub fn kleene_star(nfa: &mut Nfa) -> (r: Result<(), Error>)
    requires
        old(nfa).wf(),
        old(nfa).num_states < u32::MAX,
    ensures
        r is Ok,
        final(nfa).wf(),
        final(nfa).num_states == old(nfa).num_states + 1,
        final(nfa).alphabet@ == old(nfa).alphabet@,
        final(nfa).accept_states@ == seq![0u32] + shift_states(old(nfa).accept_states@, 1),
        final(nfa).transitions@ == shift_edges(old(nfa).transitions@, 1) + links_to(
            final(nfa).accept_states@,
            EMPTY_STRING,
            1,
        ),
{
    nfa.increment_states(1);
    nfa.accept_states.insert(0, 0);
    let accept_states = nfa.accept_states.clone();
    push_links(&mut nfa.transitions, &accept_states, EMPTY_STRING, 1);
    proof {
        assert(nfa.accept_states@ =~= seq![0u32] + shift_states(old(nfa).accept_states@, 1));
        let a = old(nfa).transitions@.len() as int;
        assert forall|k: int| 0 <= k < nfa.transitions@.len() implies {
            let t = #[trigger] nfa.transitions@[k];
            t.0 < nfa.num_states && t.2 < nfa.num_states && nfa.alphabet@.contains(t.1)
        } by {
            if k >= a {
                assert(links_to(accept_states@, EMPTY_STRING, 1)[k - a] == nfa.transitions@[k]);
                assert(accept_states@[k - a] < nfa.num_states);
            }
        }
        assert forall|i: int, j: int| 0 <= i < j < nfa.accept_states@.len() implies nfa.accept_states@[i]
            < nfa.accept_states@[j] by {
            if i > 0 {
                assert(old(nfa).accept_states@[i - 1] < old(nfa).accept_states@[j - 1]);
            }
        }
        assert forall|i: int| 0 <= i < nfa.accept_states@.len() implies #[trigger] nfa.accept_states@[i]
            < nfa.num_states by {
            if i > 0 {
                assert(old(nfa).accept_states@[i - 1] < old(nfa).num_states);
            }
        }
    }
    Ok(())
}

/// Applies the union: a new start state `0` is put before the states of
/// `first`, the states of `second` follow, and empty-word transitions lead
/// from `0` to both former start states. The accept states are those of both.
pub fn union(first: &mut Nfa, second: Nfa) -> (r: Result<(), Error>)
    requires
        old(first).wf(),
        second.wf(),
        old(first).num_states + second.num_states < u32::MAX,
    ensures
        r is Ok,
        final(first).wf(),
        final(first).num_states == old(first).num_states + second.num_states + 1,
        final(first).alphabet@ == merge_alphabet(old(first).alphabet@, second.alphabet@),
        final(first).transitions@ == shift_edges(old(first).transitions@, 1) + shift_edges(
            second.transitions@,
            old(first).num_states + 1,
        ) + seq![
            (0u32, EMPTY_STRING, 1u32),
            (0u32, EMPTY_STRING, (old(first).num_states + 1) as u32),
        ],
        final(first).accept_states@ == shift_states(old(first).accept_states@, 1) + shift_states(
            second.accept_states@,
            old(first).num_states + 1,
        ),
{
    let mut other = second;
    first.merge_alphabet_from(&other.alphabet);
    first.increment_states(1);
    assert(first.transitions@ == shift_edges(old(first).transitions@, 1));
    other.increment_states(first.num_states);
    let other_start_state = first.num_states;
    append_edges(&mut first.transitions, &other.transitions);
    let ghost t2 = first.transitions@;
    assert(t2 == shift_edges(old(first).transitions@, 1) + shift_edges(
        second.transitions@, old(first).num_states + 1));
    let mut i: usize = 0;
    while i < other.accept_states.len()
        invariant
            i <= other.accept_states.len(),
            first.transitions@ == t2,
            first.alphabet@ == merge_alphabet(old(first).alphabet@, second.alphabet@),
            first.num_states == old(first).num_states + 1,
            other.num_states == old(first).num_states + 1 + second.num_states,
            other.wf(),
            other.transitions@ == shift_edges(second.transitions@, old(first).num_states + 1),
            other.accept_states@ == shift_states(second.accept_states@, old(first).num_states + 1),
            first.accept_states@ == shift_states(old(first).accept_states@, 1)
                + other.accept_states@.take(i as int),
        decreases other.accept_states.len() - i,
    {
        first.accept_states.push(other.accept_states[i]);
        i = i + 1;
        assert(first.accept_states@ =~= shift_states(old(first).accept_states@, 1)
            + other.accept_states@.take(i as int));
    }
    assert(other.accept_states@.take(i as int) =~= other.accept_states@);
    first.transitions.push((0, EMPTY_STRING, 1));
    first.transitions.push((0, EMPTY_STRING, other_start_state));
    assert(first.transitions@ =~= t2 + seq![
        (0u32, EMPTY_STRING, 1u32),
        (0u32, EMPTY_STRING, other_start_state),
    ]);
    first.num_states = other.num_states;
    proof {
        crate::nfa::lemma_merge_contains(old(first).alphabet@, second.alphabet@);
        let s1 = shift_edges(old(first).transitions@, 1);
        let s2 = shift_edges(second.transitions@, old(first).num_states + 1);
        assert(first.transitions@ =~= s1 + s2 + seq![
            (0u32, EMPTY_STRING, 1u32),
            (0u32, EMPTY_STRING, (old(first).num_states + 1) as u32),
        ]);
        assert forall|k: int| 0 <= k < first.transitions@.len() implies {
            let t = #[trigger] first.transitions@[k];
            t.0 < first.num_states && t.2 < first.num_states && first.alphabet@.contains(t.1)
        } by {
            let a = s1.len() as int;
            let b = a + s2.len();
            if k < a {
                assert(first.transitions@[k] == s1[k]);
                assert(old(first).transitions@[k].0 < old(first).num_states);
                assert(old(first).transitions@[k].2 < old(first).num_states);
                assert(old(first).alphabet@.contains(first.transitions@[k].1));
            } else if k < b {
                assert(other.transitions@[k - a] == first.transitions@[k]);
                assert(second.alphabet@.contains(second.transitions@[k - a].1));
            } else {
                assert(old(first).alphabet@.contains(EMPTY_STRING));
            }
        }
        let n1 = shift_states(old(first).accept_states@, 1);
        assert forall|i: int, j: int| 0 <= i < j < first.accept_states@.len() implies first.accept_states@[i]
            < first.accept_states@[j] by {
            if j < n1.len() {
                assert(old(first).accept_states@[i] < old(first).accept_states@[j]);
            } else if i < n1.len() {
                assert(old(first).accept_states@[i] < old(first).num_states);
            } else {
                assert(second.accept_states@[i - n1.len()] < second.accept_states@[j - n1.len()]);
                assert(other.accept_states@[i - n1.len()] < other.accept_states@[j - n1.len()]);
            }
        }
        assert forall|i: int| 0 <= i < first.accept_states@.len() implies #[trigger] first.accept_states@[i]
            < first.num_states by {
            if i < n1.len() {
                assert(old(first).accept_states@[i] < old(first).num_states);
            } else {
                assert(second.accept_states@[i - n1.len()] < second.num_states);
                assert(other.accept_states@[i - n1.len()] < other.num_states);
            }
        }
    }
    Ok(())
}

} // verus!

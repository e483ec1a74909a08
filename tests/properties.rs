use fmsi::dfa::Dfa;
use fmsi::language::{Error, EMPTY_STRING};
use fmsi::nfa::Nfa;
use fmsi::traits::{Alphabet, State, StateIter, Transition};
use fmsi::util::{check_for_correctness, create_power_set, set_epsilon_clojure, state_epsilon_clojure};

fn words(alphabet: &[char], max_len: usize) -> Vec<String> {
    let mut all = vec![String::new()];
    let mut frontier = vec![String::new()];
    for _ in 0..max_len {
        let mut next = Vec::new();
        for w in frontier.iter() {
            for c in alphabet {
                let mut v = w.clone();
                v.push(*c);
                next.push(v);
            }
        }
        all.extend(next.iter().cloned());
        frontier = next;
    }
    all
}

#[test]
fn nfa_from_is_well_formed() {
    for p in ["a", "a*", "a|(ab|b)*", "0*1*", "(ab)*c|d", "()"] {
        let nfa = Nfa::from(p).unwrap();
        assert_eq!(0, nfa.start_state());
        let states = nfa.states();
        for (i, q) in states.iter().enumerate() {
            assert_eq!(i as u32, *q);
        }
        assert!(nfa.alphabet.contains(&EMPTY_STRING));
    }
}

#[test]
fn to_dfa_is_complete_with_start_zero() {
    for p in ["a", "a*", "a|(ab|b)*", "0*1*", "(ab)*c|d"] {
        let dfa = Nfa::from(p).unwrap().to_dfa().unwrap();
        assert!(dfa.is_complete());
        assert_eq!(0, dfa.start_state());
        assert!(!dfa.alphabet.contains(&EMPTY_STRING));
    }
}

#[test]
fn minimized_is_complete_and_distinguishes_states() {
    for p in ["a", "a*", "a|(ab|b)*", "0*1*", "(ab)*c|d"] {
        let dfa = Dfa::from(p).unwrap();
        assert!(dfa.is_complete());
        let ws = words(&dfa.alphabet, 4);
        let n = dfa.states().len() as u32;
        for p in 0..n {
            for q in (p + 1)..n {
                let mut differ = false;
                for w in ws.iter() {
                    let mut a = p;
                    let mut b = q;
                    for c in w.chars() {
                        a = dfa.get_transition((a, c)).unwrap();
                        b = dfa.get_transition((b, c)).unwrap();
                    }
                    if dfa.is_accept_state(a) != dfa.is_accept_state(b) {
                        differ = true;
                    }
                }
                assert!(differ);
            }
        }
    }
}

#[test]
fn minimized_agrees_with_subset_automaton() {
    for p in ["a", "a*", "a|(ab|b)*", "0*1*", "(ab)*c|d", "a|b(ab*|a)*"] {
        let min = Dfa::from(p).unwrap();
        let full = Nfa::from(p).unwrap().to_dfa().unwrap();
        for w in words(&['a', 'b', 'c', 'd', '0', '1'], 4) {
            assert_eq!(full.run(&w), min.run(&w));
        }
    }
}

#[test]
fn synthesised_regex_has_the_same_language() {
    for p in ["a", "a*", "a|(ab|b)*", "0*1*", "ab|b", "(ab)*"] {
        let dfa = Dfa::from(p).unwrap();
        let again = Dfa::from(&dfa.to_regex()).unwrap();
        for w in words(&['a', 'b', '0', '1'], 5) {
            assert_eq!(dfa.run(&w), again.run(&w), "pattern {} word {}", p, w);
        }
    }
}

#[test]
fn construction_is_deterministic() {
    for p in ["a|(ab|b)*", "0*1*", "a|b(ab*|a)*"] {
        let x = Dfa::from(p).unwrap();
        let y = Dfa::from(p).unwrap();
        assert_eq!(x.num_states, y.num_states);
        assert_eq!(x.alphabet, y.alphabet);
        assert_eq!(x.transitions, y.transitions);
        assert_eq!(x.accept_states, y.accept_states);
    }
}

#[test]
fn validator_accepts_and_rejects() {
    assert!(check_for_correctness("a|b(ab*|a)*").is_ok());
    for p in ["(*ab)", "(|ab)", "(ab|)", "a||b", "ab**", "(ab|*)", "(ab|b)*)", ")("] {
        assert_eq!(Err(Error::MalformedRegex), check_for_correctness(p));
        assert_eq!(Error::MalformedRegex, Nfa::from(p).unwrap_err());
        assert_eq!(Error::MalformedRegex, Dfa::from(p).unwrap_err());
    }
}

#[test]
fn primitive_symbol() {
    let dfa = Dfa::from("a").unwrap();
    assert_eq!(Ok(false), dfa.run(""));
    assert_eq!(Ok(true), dfa.run("a"));
    assert_eq!(Ok(false), dfa.run("aa"));
    assert_eq!(Ok(false), dfa.run("b"));
}

#[test]
fn kleene_scenario() {
    let dfa = Dfa::from("a*").unwrap();
    assert_eq!(Ok(true), dfa.run(""));
    assert_eq!(Ok(true), dfa.run("a"));
    assert_eq!(Ok(true), dfa.run("aaaaa"));
}

#[test]
fn alternation_and_star_scenario() {
    let dfa = Dfa::from("a|(ab|b)*").unwrap();
    assert_eq!(5, dfa.states().len());
    assert_eq!(vec!['a', 'b'], dfa.alphabet);
    assert_eq!(vec![0, 1, 2], dfa.accept_states);
    let table = [
        ((0, 'a'), 1),
        ((0, 'b'), 2),
        ((1, 'a'), 3),
        ((1, 'b'), 2),
        ((2, 'a'), 4),
        ((2, 'b'), 2),
        ((3, 'a'), 3),
        ((3, 'b'), 3),
        ((4, 'a'), 3),
        ((4, 'b'), 2),
    ];
    for (key, target) in table {
        assert_eq!(Some(target), dfa.get_transition(key));
    }
    for w in ["", "a", "ab", "abb", "abab", "bab"] {
        assert_eq!(Ok(true), dfa.run(w));
    }
    assert_eq!(Ok(false), dfa.run("aa"));
    // the table above sends "ba" to the non-accepting state 4
    assert_eq!(Ok(false), dfa.run("ba"));
}

#[test]
fn epsilon_closure_scenario() {
    let nfa = Nfa::from("a|(ab|b)*").unwrap();
    assert_eq!(15, nfa.states().len());
    assert_eq!(vec![0, 1, 2, 4, 5, 6, 7, 8, 12, 13], state_epsilon_clojure(&nfa, 0));
    assert_eq!(
        vec![5, 6, 7, 8, 9, 10, 11, 12, 13, 14],
        set_epsilon_clojure(&nfa, &[9, 11, 14])
    );
}

#[test]
fn regex_of_zero_star_one_star() {
    let dfa = Dfa::from("0*1*").unwrap();
    let regex = dfa.to_regex();
    let again = Dfa::from(&regex).unwrap();
    for w in words(&['0', '1'], 6) {
        let expected = !w.contains("10");
        assert_eq!(Ok(expected), again.run(&w), "word {}", w);
    }
}

#[test]
fn regex_of_single_symbol() {
    let dfa = Dfa::from("a").unwrap();
    let e = EMPTY_STRING;
    assert_eq!(format!("(a|{e}*a)|(a|{e}*a){e}*{e}"), dfa.to_regex());
}

#[test]
fn regex_of_empty_language_is_empty_group() {
    let dfa = Dfa::new();
    assert_eq!("()", dfa.to_regex());
    let again = Dfa::from("()").unwrap();
    for w in ["", "a", "()"] {
        assert_eq!(Ok(false), again.run(w));
    }
}

#[test]
fn power_set_of_empty_and_longer_sets() {
    let empty: Vec<Vec<u32>> = Vec::new();
    assert_eq!(empty, create_power_set(&[]));
    let r = create_power_set(&[7, 7, 7, 7]);
    assert_eq!(10, r.len());
    assert_eq!(vec![0, 1, 2], r[2]);
    assert_eq!(vec![0, 1, 2, 3], r[3]);
    assert_eq!(vec![1], r[4]);
    assert_eq!(vec![3], r[9]);
}

#[test]
fn dfa_transition_errors() {
    let mut dfa = Dfa::new();
    dfa.add_state();
    dfa.add_symbol('a');
    assert_eq!(Err(Error::InvalidState), dfa.add_transition(&(5, 'a'), 0));
    assert_eq!(Err(Error::InvalidTarget), dfa.add_transition(&(0, 'a'), 5));
    assert_eq!(Err(Error::InvalidSymbol), dfa.add_transition(&(0, 'z'), 1));
    assert_eq!(Ok(()), dfa.add_transition(&(0, 'a'), 1));
    assert_eq!(Err(Error::DuplicateTransition), dfa.add_transition(&(0, 'a'), 0));
}

#[test]
fn nfa_transition_errors() {
    let mut nfa = Nfa::new();
    nfa.add_state();
    nfa.add_symbol('a');
    assert_eq!(Err(Error::InvalidState), nfa.add_transition(&(5, 'a'), 0));
    assert_eq!(Err(Error::InvalidSymbol), nfa.add_transition(&(0, 'z'), 1));
    assert_eq!(Err(Error::InvalidTarget), nfa.add_transition(&(0, 'a'), 5));
    assert_eq!(Ok(()), nfa.add_transition(&(0, 'a'), 1));
    assert_eq!(Ok(()), nfa.add_transition(&(0, 'a'), 0));
    assert_eq!(Some(vec![0, 1]), nfa.get_transition((0, 'a')));
}

#[test]
fn run_on_incomplete_automaton_fails() {
    let mut dfa = Dfa::new();
    dfa.add_state();
    dfa.add_symbol('a');
    dfa.add_transition(&(0, 'a'), 1).unwrap();
    dfa.add_accept_state(1);
    assert!(!dfa.is_complete());
    assert_eq!(Ok(true), dfa.run("a"));
    assert_eq!(Err(Error::IncompleteAutomaton), dfa.run("aa"));
    // an incomplete automaton cannot reject an unknown symbol cleanly
    assert_eq!(Err(Error::IncompleteAutomaton), dfa.run("b"));
}

#[test]
fn removing_states_and_symbols_of_dfa() {
    let mut dfa = Dfa::from("a|(ab|b)*").unwrap();
    dfa.remove_state();
    assert_eq!(4, dfa.states().len());
    assert_eq!(None, dfa.get_transition((2, 'a')));
    dfa.remove_symbol('b');
    assert_eq!(vec!['a'], dfa.alphabet);
    assert_eq!(None, dfa.get_transition((0, 'b')));
    dfa.remove_accept_state(0);
    assert_eq!(vec![1, 2], dfa.accept_states);
}

#[test]
fn empty_word_marker_stays_in_nfa_alphabet() {
    let mut nfa = Nfa::new();
    nfa.remove_symbol(EMPTY_STRING);
    assert_eq!(vec![EMPTY_STRING], nfa.alphabet);
    assert!(nfa.is_empty());
}

#[test]
fn error_messages() {
    assert_eq!("The automata is incomplete", Error::IncompleteAutomaton.message());
}

#[test]
fn defaults_match_new() {
    let nfa = Nfa::default();
    assert_eq!(vec![0], nfa.states());
    assert_eq!(vec![EMPTY_STRING], nfa.alphabet);
    let dfa = Dfa::default();
    assert_eq!(vec![0], dfa.states());
    assert!(dfa.alphabet.is_empty());
    assert!(fmsi::regex::Equation::default().0.is_empty());
}

use fmsi::dfa::Dfa;
use fmsi::nfa::Nfa;
use fmsi::traits::StateIter;

#[test]
fn n_equivalence() {
    // the partition below is one of the automaton before minimization
    let dfa = Nfa::from("a|(ab|b)*").unwrap().to_dfa().unwrap();
    let sets = vec![vec![0, 1, 2, 4], vec![3, 5]];

    assert!(dfa.are_equivalent(&sets, 1, 2));
    assert!(dfa.are_equivalent(&sets, 2, 4));
    assert!(dfa.are_equivalent(&sets, 1, 4));

    assert!(!dfa.are_equivalent(&sets, 0, 1));
    assert!(!dfa.are_equivalent(&sets, 0, 2));
    assert!(!dfa.are_equivalent(&sets, 0, 4));
    assert!(!dfa.are_equivalent(&sets, 3, 5));
    assert!(!dfa.are_equivalent(&sets, 0, 3));
    assert!(!dfa.are_equivalent(&sets, 0, 5));
    assert!(!dfa.are_equivalent(&sets, 1, 3));
    assert!(!dfa.are_equivalent(&sets, 1, 5));
    assert!(!dfa.are_equivalent(&sets, 2, 3));
    assert!(!dfa.are_equivalent(&sets, 4, 5));
}

#[test]
fn dfa_minimization() {
    let mut dfa = Dfa::from("a|(ab|b)*").unwrap();
    let _ = dfa.minimize();

    assert!(dfa.is_complete());
    assert_eq!(vec![0, 1, 2, 3, 4], dfa.states());
    assert_eq!(vec!['a', 'b'], dfa.alphabet);
    assert_eq!(vec![0, 1, 2], dfa.accept_states);
    assert_eq!(1, dfa.get_transition((0, 'a')).unwrap());
    assert_eq!(2, dfa.get_transition((0, 'b')).unwrap());
    assert_eq!(3, dfa.get_transition((1, 'a')).unwrap());
    assert_eq!(2, dfa.get_transition((1, 'b')).unwrap());
    assert_eq!(4, dfa.get_transition((2, 'a')).unwrap());
    assert_eq!(2, dfa.get_transition((2, 'b')).unwrap());
    assert_eq!(3, dfa.get_transition((3, 'a')).unwrap());
    assert_eq!(3, dfa.get_transition((3, 'b')).unwrap());
    assert_eq!(3, dfa.get_transition((4, 'a')).unwrap());
    assert_eq!(2, dfa.get_transition((4, 'b')).unwrap());
}

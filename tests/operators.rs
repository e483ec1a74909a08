use fmsi::language::EMPTY_STRING;
use fmsi::nfa::Nfa;
use fmsi::operators;
use fmsi::test_utils;
use fmsi::traits::{Alphabet, State, StateIter, Transition};

#[test]
fn nfa_concat() {
    let mut first = Nfa::new();
    let mut second = Nfa::new();

    first.add_state();
    first.add_state();
    first.add_symbol('A');
    first.add_symbol('B');
    first.add_transition(&(0, EMPTY_STRING), 1).unwrap();
    first.add_transition(&(0, 'A'), 0).unwrap();
    first.add_transition(&(0, 'B'), 2).unwrap();
    first.add_transition(&(1, EMPTY_STRING), 2).unwrap();
    first.add_transition(&(1, 'A'), 0).unwrap();
    first.add_transition(&(2, 'A'), 2).unwrap();
    first.add_accept_state(2);
    println!("first: {:?}", first.transitions);

    second.add_state();
    second.add_state();
    second.add_symbol('A');
    second.add_symbol('B');
    second.add_transition(&(0, 'A'), 1).unwrap();
    second.add_transition(&(1, 'B'), 2).unwrap();
    second.add_transition(&(2, 'B'), 0).unwrap();
    second.add_transition(&(2, EMPTY_STRING), 1).unwrap();
    second.add_accept_state(2);
    println!("second: {:?}", second.transitions);

    operators::concat(&mut first, second).expect("The concat method crashed");

    assert_eq!(
        vec![0, 1, 2, 3, 4, 5],
        first.states(),
        "The number of states is wrong when concatenating"
    );
    assert_eq!(
        vec![EMPTY_STRING, 'A', 'B'],
        first.alphabet,
        "The alphabet symbols don't match"
    );
    assert_eq!(
        vec![3],
        first.get_transition((2, EMPTY_STRING)).unwrap(),
        "An empty string transition is missing between the nfas"
    );
    assert_eq!(vec![4], first.get_transition((3, 'A')).unwrap());
    assert_eq!(vec![5], first.get_transition((4, 'B')).unwrap());
    assert_eq!(vec![4], first.get_transition((5, EMPTY_STRING)).unwrap());
    assert_eq!(vec![3], first.get_transition((5, 'B')).unwrap());
    println!("result: {:?}", first.transitions);
}

#[test]
fn nfa_kleene_star() {
    let mut nfa = test_utils::prepare_nfa();
    operators::kleene_star(&mut nfa).expect("Kleene star method failed");

    assert_eq!(vec![0, 1, 2, 3, 4], nfa.states(), "States set is not correct");
    assert_eq!(vec![0, 4], nfa.accept_states, "Accept states is not correct");

    assert_eq!(vec![1], nfa.get_transition((0, EMPTY_STRING)).unwrap());
    assert_eq!(vec![1], nfa.get_transition((4, EMPTY_STRING)).unwrap());
    assert_eq!(vec![1, 2], nfa.get_transition((1, 'A')).unwrap());
    assert_eq!(vec![2, 4], nfa.get_transition((3, 'B')).unwrap());
}

#[test]
fn nfa_union() {
    let (mut first, second) = test_utils::prepare_nfa_pair();
    operators::union(&mut first, second).unwrap();

    assert_eq!(vec![0, 1, 2, 3, 4, 5, 6], first.states());
    assert_eq!(vec![1, 5], first.get_transition((0, EMPTY_STRING)).unwrap());
    assert_eq!(vec![4], first.get_transition((3, 'b')).unwrap());
    assert_eq!(vec![6], first.get_transition((5, 'a')).unwrap());
    assert_eq!(vec![4, 6], first.accept_states);
}

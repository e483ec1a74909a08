use fmsi::language::EMPTY_STRING;
use fmsi::nfa::Nfa;
use fmsi::test_utils;
use fmsi::traits::{Alphabet, State, StateIter};

#[test]
fn nfa_construction() {
    let nfa = Nfa::from("a|(ab|b)*");
    println!("{:?}", nfa);

    let nfa = match nfa {
        Ok(result) => result,
        Err(e) => panic!("{:?}", e),
    };

    assert_eq!(vec![0, 1, 2, 3, 4, 5, 6, 7, 8, 9, 10, 11, 12, 13, 14], nfa.states());
    assert_eq!(vec![EMPTY_STRING, 'a', 'b'], nfa.alphabet);
    assert_eq!(vec![3, 4, 11, 14], nfa.accept_states);

    let map: Vec<((u32, char), Vec<u32>)> = vec![
        ((0, EMPTY_STRING), vec![1, 4]),
        ((1, EMPTY_STRING), vec![2]),
        ((2, 'a'), vec![3]),
        ((4, EMPTY_STRING), vec![5]),
        ((5, EMPTY_STRING), vec![6]),
        ((6, EMPTY_STRING), vec![7, 12]),
        ((7, EMPTY_STRING), vec![8]),
        ((8, 'a'), vec![9]),
        ((9, EMPTY_STRING), vec![10]),
        ((10, 'b'), vec![11]),
        ((11, EMPTY_STRING), vec![5]),
        ((12, EMPTY_STRING), vec![13]),
        ((13, 'b'), vec![14]),
        ((14, EMPTY_STRING), vec![5]),
    ];

    for (key, value) in map.iter() {
        if nfa.get_transition(*key).unwrap() != *value {
            panic!("Transition is missing");
        }
    }

    let pairs = [
        (0, 'a'),
        (0, 'b'),
        (1, 'a'),
        (1, 'b'),
        (2, EMPTY_STRING),
        (2, 'b'),
        (3, EMPTY_STRING),
        (3, 'a'),
        (3, 'b'),
        (4, 'a'),
        (4, 'b'),
        (5, 'a'),
        (5, 'b'),
        (6, 'a'),
        (6, 'b'),
        (7, 'a'),
        (7, 'b'),
        (8, EMPTY_STRING),
        (8, 'b'),
        (9, 'a'),
        (9, 'b'),
        (10, 'a'),
        (10, EMPTY_STRING),
        (11, 'a'),
        (11, 'b'),
        (12, 'a'),
        (12, 'b'),
        (13, EMPTY_STRING),
        (13, 'a'),
        (14, 'a'),
        (14, 'b'),
    ];

    for i in pairs {
        if nfa.get_transition(i).is_some() {
            panic!("Some transitions exist that shouldn't");
        }
    }
}

#[test]
fn nfa_adding_state() {
    let nfa = test_utils::prepare_nfa();

    assert_eq!(vec![0, 1, 2, 3], nfa.states());
}

#[test]
fn nfa_removing_state() {
    let mut nfa = test_utils::prepare_nfa();

    nfa.remove_state();
    nfa.remove_state();

    assert_eq!(vec![0, 1], nfa.states());
}

#[test]
fn nfa_adding_symbol() {
    let nfa = test_utils::prepare_nfa();

    assert_eq!(vec![EMPTY_STRING, 'A', 'B', 'C'], nfa.alphabet);
}

#[test]
fn nfa_removing_symbol() {
    let mut nfa = test_utils::prepare_nfa();

    nfa.remove_symbol('B');

    assert_eq!(vec![EMPTY_STRING, 'A', 'C'], nfa.alphabet);
}

#[test]
fn nfa_adding_transition() {
    let nfa = test_utils::prepare_nfa();

    assert_eq!(vec![0, 1], nfa.get_transition((0, 'A')).unwrap());
    assert_eq!(vec![3], nfa.get_transition((0, 'B')).unwrap());
    assert_eq!(vec![1], nfa.get_transition((0, 'C')).unwrap());
    assert_eq!(vec![2], nfa.get_transition((1, 'C')).unwrap());
    assert_eq!(vec![1, 3], nfa.get_transition((2, 'B')).unwrap());
}

#[test]
fn nfa_adding_accept_states() {
    let mut nfa = test_utils::prepare_nfa();

    nfa.add_accept_state(1);
    nfa.add_accept_state(2);

    assert_eq!(vec![1, 2, 3], nfa.accept_states);
}

#[test]
fn nfa_to_dfa() {
    let nfa = Nfa::from("a|(ab|b)*").unwrap();
    let dfa = nfa.to_dfa().unwrap();

    println!("{:?}", dfa);
    assert!(dfa.is_complete());
}

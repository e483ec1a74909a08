use fmsi::nfa::Nfa;
use fmsi::util::{
    check_for_correctness, create_power_set, set_epsilon_clojure, set_transitions,
    state_epsilon_clojure,
};

#[test]
fn util_power_set() {
    let result = create_power_set(&[0, 1, 2]);
    assert_eq!(
        vec![
            vec![0],
            vec![0, 1],
            vec![0, 1, 2],
            vec![1],
            vec![1, 2],
            vec![2]
        ],
        result
    );

    println!("{:?}", result);
}

#[test]
fn checking_for_correctness() {
    assert!(check_for_correctness("(*ab)").is_err());
    assert!(check_for_correctness("(|ab)").is_err());
    assert!(check_for_correctness("(ab|)").is_err());
    assert!(check_for_correctness("a||b").is_err());
    assert!(check_for_correctness("ab**").is_err());
    assert!(check_for_correctness("(ab|*)").is_err());
    assert!(check_for_correctness("(ab|b)*)").is_err());

    assert!(check_for_correctness("a|b(ab*|a)*").is_ok());
}

#[test]
fn nfa_state_epsilon_clojure() {
    let nfa = Nfa::from("a|(ab|b)*").unwrap();

    assert_eq!(vec![0, 1, 2, 4, 5, 6, 7, 8, 12, 13], state_epsilon_clojure(&nfa, 0));
    assert_eq!(vec![5, 6, 7, 8, 12, 13], state_epsilon_clojure(&nfa, 5));
    assert_eq!(vec![5, 6, 7, 8, 12, 13, 14], state_epsilon_clojure(&nfa, 14));
    assert_eq!(vec![1, 2], state_epsilon_clojure(&nfa, 1));
    assert_eq!(vec![2], state_epsilon_clojure(&nfa, 2));
    assert_eq!(vec![8], state_epsilon_clojure(&nfa, 8));
}

#[test]
fn nfa_set_epsilon_clojure() {
    let nfa = Nfa::from("a|(ab|b)*").unwrap();

    assert_eq!(
        vec![0, 1, 2, 4, 5, 6, 7, 8, 12, 13],
        set_epsilon_clojure(&nfa, &[0, 8])
    );
    assert_eq!(
        vec![5, 6, 7, 8, 9, 10, 11, 12, 13, 14],
        set_epsilon_clojure(&nfa, &[9, 11, 14])
    );
    assert_eq!(vec![4, 5, 6, 7, 8, 12, 13], set_epsilon_clojure(&nfa, &[4, 5]));
    assert_eq!(vec![2, 8, 13], set_epsilon_clojure(&nfa, &[2, 8, 13]));
}

#[test]
fn nfa_set_transitions() {
    let nfa = Nfa::from("a|(ab|b)*").unwrap();
    let empty: Vec<u32> = Vec::new();

    assert_eq!(vec![11, 14], set_transitions(&nfa, &[10, 13], 'b'));
    assert_eq!(vec![3, 9], set_transitions(&nfa, &[2, 8], 'a'));
    assert_eq!(empty, set_transitions(&nfa, &[0, 3, 4], 'a'));
}

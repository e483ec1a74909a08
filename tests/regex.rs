use fmsi::dfa::Dfa;
use fmsi::regex::{get_initial_eq, get_regex, Equation, Token};
use fmsi::traits::{Alphabet, State, StateIter, Transition};
use std::collections::HashMap;

#[test]
fn initial_eq() {
    let dfa = Dfa::from("a|(ab|b)*").unwrap();
    let num_states = dfa.states().len() as u32;

    // states are numbered from 1 in the table, as in the construction
    let mut lookup_table: HashMap<(u32, u32, u32), Equation> = HashMap::new();
    for i in 1..=num_states {
        for j in 1..=num_states {
            lookup_table.insert((i, j, 0), get_initial_eq(&dfa, (i - 1, j - 1)));
            println!("({}, {})", i, j);
            println!("{:?}", get_initial_eq(&dfa, (i - 1, j - 1)).0);
            println!();
        }
    }

    assert_eq!(vec![Token::EmptyString], lookup_table.get(&(1, 1, 0)).unwrap().0);
    assert_eq!(vec![Token::Symbol('a')], lookup_table.get(&(1, 2, 0)).unwrap().0);
    assert_eq!(vec![Token::Symbol('b')], lookup_table.get(&(1, 3, 0)).unwrap().0);
    assert_eq!(vec![Token::EmptySet], lookup_table.get(&(1, 4, 0)).unwrap().0);
    assert_eq!(vec![Token::EmptySet], lookup_table.get(&(1, 5, 0)).unwrap().0);

    assert_eq!(vec![Token::EmptySet], lookup_table.get(&(2, 1, 0)).unwrap().0);
    assert_eq!(vec![Token::EmptyString], lookup_table.get(&(2, 2, 0)).unwrap().0);
    assert_eq!(vec![Token::Symbol('b')], lookup_table.get(&(2, 3, 0)).unwrap().0);
    assert_eq!(vec![Token::Symbol('a')], lookup_table.get(&(2, 4, 0)).unwrap().0);
    assert_eq!(vec![Token::EmptySet], lookup_table.get(&(2, 5, 0)).unwrap().0);

    assert_eq!(vec![Token::EmptySet], lookup_table.get(&(3, 1, 0)).unwrap().0);
    assert_eq!(vec![Token::EmptySet], lookup_table.get(&(3, 2, 0)).unwrap().0);
    assert_eq!(
        vec![Token::EmptyString, Token::Union, Token::Symbol('b')],
        lookup_table.get(&(3, 3, 0)).unwrap().0
    );
    assert_eq!(vec![Token::EmptySet], lookup_table.get(&(3, 4, 0)).unwrap().0);
    assert_eq!(vec![Token::Symbol('a')], lookup_table.get(&(3, 5, 0)).unwrap().0);

    assert_eq!(vec![Token::EmptySet], lookup_table.get(&(4, 1, 0)).unwrap().0);
    assert_eq!(vec![Token::EmptySet], lookup_table.get(&(4, 2, 0)).unwrap().0);
    assert_eq!(vec![Token::EmptySet], lookup_table.get(&(4, 3, 0)).unwrap().0);
    assert_eq!(
        vec![
            Token::EmptyString,
            Token::Union,
            Token::Symbol('a'),
            Token::Union,
            Token::Symbol('b')
        ],
        lookup_table.get(&(4, 4, 0)).unwrap().0
    );
    assert_eq!(vec![Token::EmptySet], lookup_table.get(&(4, 5, 0)).unwrap().0);

    assert_eq!(vec![Token::EmptySet], lookup_table.get(&(5, 1, 0)).unwrap().0);
    assert_eq!(vec![Token::EmptySet], lookup_table.get(&(5, 2, 0)).unwrap().0);
    assert_eq!(vec![Token::Symbol('b')], lookup_table.get(&(5, 3, 0)).unwrap().0);
    assert_eq!(vec![Token::Symbol('a')], lookup_table.get(&(5, 4, 0)).unwrap().0);
    assert_eq!(vec![Token::EmptyString], lookup_table.get(&(5, 5, 0)).unwrap().0);
}

#[test]
fn regex_generation() {
    let mut dfa = Dfa::new();
    dfa.add_state();
    dfa.add_symbol('a');
    dfa.add_symbol('b');
    let _ = dfa.add_transition(&(0, 'a'), 1);
    let _ = dfa.add_transition(&(0, 'b'), 0);
    let _ = dfa.add_transition(&(1, 'a'), 1);
    let _ = dfa.add_transition(&(1, 'b'), 1);
    dfa.add_accept_state(1);
    let eq = get_regex(&dfa);
    println!("{}", eq.to_string());

    let dfa = Dfa::from("a|(ab|b)*").unwrap();
    let eq = get_regex(&dfa);
    println!("{}", eq.to_string());
}

#[test]
fn initial_eq_sorts_symbols() {
    let mut dfa = Dfa::new();
    dfa.add_state();
    dfa.add_symbol('b');
    dfa.add_symbol('a');
    dfa.add_transition(&(0, 'b'), 1).unwrap();
    dfa.add_transition(&(0, 'a'), 1).unwrap();
    assert_eq!(
        vec![Token::Symbol('a'), Token::Union, Token::Symbol('b')],
        get_initial_eq(&dfa, (0, 1)).0
    );
}

use fmsi::conversion::{ardens_theorem, replace_state, single_state_equation, Token};
use fmsi::nfa::Nfa;
use std::collections::HashMap;

#[test]
fn dfa_single_state_equation() {
    let nfa = Nfa::from("0*1*").unwrap();
    let dfa = nfa.to_dfa().unwrap();

    let x = single_state_equation(&dfa, 3);
    println!("{:?}", x);
}

#[test]
fn ardens_theorem_test() {
    let mut input = vec![
        Token::State(1),
        Token::Symbol('a'),
        Token::Symbol('b'),
        Token::Operator('|'),
        Token::State(0),
        Token::Symbol('a'),
        Token::Operator('|'),
        Token::State(2),
        Token::Symbol('b'),
    ];

    ardens_theorem(&mut input, 0);

    assert_eq!(
        vec![
            Token::State(1),
            Token::Symbol('a'),
            Token::Symbol('b'),
            Token::OpenParent,
            Token::Symbol('a'),
            Token::ClosedParent,
            Token::Operator('*'),
            Token::Operator('|'),
            Token::State(2),
            Token::Symbol('b'),
        ],
        input
    );
}

#[test]
fn replacing_states() {
    let mut input = vec![
        Token::State(1),
        Token::Symbol('a'),
        Token::Symbol('b'),
        Token::Operator('|'),
        Token::State(0),
        Token::Symbol('a'),
        Token::Operator('|'),
        Token::State(2),
        Token::Symbol('b'),
    ];

    let mut lookup: HashMap<u32, Vec<Token>> = HashMap::new();
    lookup.insert(
        0,
        vec![
            Token::State(1),
            Token::Symbol('a'),
            Token::Operator('|'),
            Token::State(2),
            Token::Symbol('a'),
            Token::Symbol('b'),
        ],
    );

    replace_state(&mut input, &lookup, 0);

    assert_eq!(
        vec![
            Token::State(1),
            Token::Symbol('a'),
            Token::Symbol('b'),
            Token::Operator('|'),
            Token::State(1),
            Token::Symbol('a'),
            Token::Operator('|'),
            Token::State(2),
            Token::Symbol('a'),
            Token::Symbol('b'),
            Token::Symbol('a'),
            Token::Operator('|'),
            Token::State(2),
            Token::Symbol('b'),
        ],
        input
    );
}

use crate::dfa::Dfa;
use crate::language::EMPTY_STRING;
use std::collections::HashMap;
use vstd::prelude::*;

verus! {

broadcast use vstd::std_specs::hash::group_hash_axioms;

/// A token of a state equation over symbols of type `S`.
#[derive(Debug, Clone, Copy, PartialEq, Eq)]
pub enum EquationToken<S> {
    Symbol(S),
    State(u32),
    Operator(S),
    OpenParent,
    ClosedParent,
    EmptyString,
}

/// The tokens of state equations over characters.
pub type Token = EquationToken<char>;

/// For each transition of `e` into `state`, in order: its source state, its
/// symbol and a union.
pub open spec fn incoming(e: Seq<(u32, char, u32)>, state: u32) -> Seq<Token>
    decreases e.len(),
{
    if e.len() == 0 {
        Seq::empty()
    } else if e.last().2 == state {
        incoming(e.drop_last(), state) + seq![
            Token::State(e.last().0),
            Token::Symbol(e.last().1),
            Token::Operator('|'),
        ]
    } else {
        incoming(e.drop_last(), state)
    }
}

/// The state equation of `state`: `ε |` for the start state, then each
/// source state and symbol leading into `state`, joined by unions.
pub open spec fn state_equation(dfa: &Dfa, state: u32) -> Seq<Token> {
    let body = (if state == 0 {
        seq![Token::EmptyString, Token::Operator('|')]
    } else {
        Seq::empty()
    }) + incoming(dfa.transitions@, state);
    if body.len() > 0 && body.last() == Token::Operator('|') {
        body.drop_last()
    } else {
        body
    }
}

/// Calculates the state equation for a given state: the states that
/// transition into it, each with the symbol of the transition, separated by
/// the union symbol.
pub fn single_state_equation(dfa: &Dfa, state: u32) -> (r: Vec<Token>)
    ensures
        r@ == state_equation(dfa, state),
{
    let mut expr: Vec<Token> = Vec::new();
    if state == 0 {
        expr.push(Token::EmptyString);
        expr.push(Token::Operator('|'));
    }
    let ghost head = expr@;
    let mut i: usize = 0;
    while i < dfa.transitions.len()
        invariant
            i <= dfa.transitions.len(),
            expr@ == head + incoming(dfa.transitions@.take(i as int), state),
        decreases dfa.transitions.len() - i,
    {
        let t = dfa.transitions[i];
        proof {
            assert(dfa.transitions@.take(i as int + 1).drop_last() =~= dfa.transitions@.take(i as int));
            assert(dfa.transitions@.take(i as int + 1).last() == t);
        }
        if t.2 == state {
            expr.push(Token::State(t.0));
            expr.push(Token::Symbol(t.1));
            expr.push(Token::Operator('|'));
        }
        proof {
            assert(expr@ =~= head + incoming(dfa.transitions@.take(i as int + 1), state));
        }
        i = i + 1;
    }
    assert(dfa.transitions@.take(i as int) =~= dfa.transitions@);
    assert(head == if state == 0 {
        seq![Token::EmptyString, Token::Operator('|')]
    } else {
        Seq::<Token>::empty()
    });
    if expr.len() > 0 {
        if matches!(expr[expr.len() - 1], Token::Operator('|')) {
            expr.pop();
        }
    }
    expr
}

/// The state equations of all states, by state.
pub fn all_states_equations(dfa: &Dfa) -> (r: HashMap<u32, Vec<Token>>)
    ensures
        forall|q: u32| #[trigger] r@.contains_key(q) <==> q < dfa.num_states,
        forall|q: u32| q < dfa.num_states ==> (#[trigger] r@[q])@ == state_equation(dfa, q),
{
    let mut lookup: HashMap<u32, Vec<Token>> = HashMap::new();
    let mut q: u32 = 0;
    while q < dfa.num_states
        invariant
            q <= dfa.num_states,
            forall|x: u32| #[trigger] lookup@.contains_key(x) <==> x < q,
            forall|x: u32| x < q ==> (#[trigger] lookup@[x])@ == state_equation(dfa, x),
        decreases dfa.num_states - q,
    {
        lookup.insert(q, single_state_equation(dfa, q));
        q = q + 1;
    }
    lookup
}

/// Whether every state named in the equation is `state`.
pub fn equation_is_reduced(equation: &[Token], state: u32) -> (r: bool)
    ensures
        r == forall|i: int| 0 <= i < equation@.len() ==> (#[trigger] equation@[i] matches Token::State(m) ==> m == state),
{
    let mut reduced = true;
    let mut i: usize = 0;
    while i < equation.len()
        invariant
            i <= equation@.len(),
            reduced == forall|j: int| 0 <= j < i ==> (#[trigger] equation@[j] matches Token::State(m) ==> m == state),
        decreases equation@.len() - i,
    {
        if let Token::State(member) = equation[i] {
            if member != state {
                reduced = false;
            }
        }
        i = i + 1;
    }
    reduced
}

/// The number of state tokens in `s`.
pub open spec fn count_states(s: Seq<Token>) -> nat
    decreases s.len(),
{
    if s.len() == 0 {
        0
    } else {
        count_states(s.drop_last()) + if s.last() is State {
            1nat
        } else {
            0nat
        }
    }
}

/// Whether the equation has the shape `R = Q | R P`: exactly one state
/// token, and that is `state`.
pub fn valid_for_ardens_theorem(equation: &[Token], state: u32) -> (r: bool)
    ensures
        r == (count_states(equation@) == 1 && equation@.contains(Token::State(state))),
{
    let mut count: usize = 0;
    let mut found = false;
    let mut i: usize = 0;
    while i < equation.len()
        invariant
            i <= equation@.len(),
            count <= i,
            count == count_states(equation@.take(i as int)),
            found == equation@.take(i as int).contains(Token::State(state)),
        decreases equation@.len() - i,
    {
        proof {
            let t = equation@.take(i as int + 1);
            assert(t.drop_last() =~= equation@.take(i as int));
            assert(t.last() == equation@[i as int]);
            assert(t.contains(Token::State(state)) <==> (equation@.take(i as int).contains(Token::State(state)) || equation@[i as int] == Token::State(state))) by {
                if t.contains(Token::State(state)) {
                    let k = choose|k: int| 0 <= k < t.len() && t[k] == Token::State(state);
                    if k < i {
                        assert(equation@.take(i as int)[k] == Token::State(state));
                    }
                }
                if equation@.take(i as int).contains(Token::State(state)) {
                    let k = choose|k: int| 0 <= k < i && equation@.take(i as int)[k] == Token::State(state);
                    assert(t[k] == Token::State(state));
                }
                if equation@[i as int] == Token::State(state) {
                    assert(t[i as int] == Token::State(state));
                }
            }
        }
        if let Token::State(s) = equation[i] {
            count = count + 1;
            if s == state {
                found = true;
            }
        }
        i = i + 1;
    }
    assert(equation@.take(i as int) =~= equation@);
    count == 1 && found
}

/// The position of the first `State(state)` in `s`, or `-1`.
pub open spec fn state_position(s: Seq<Token>, state: u32) -> int
    decreases s.len(),
{
    if s.len() == 0 {
        -1
    } else {
        let r = state_position(s.drop_last(), state);
        if r >= 0 {
            r
        } else if s.last() == Token::State(state) {
            s.len() - 1
        } else {
            -1
        }
    }
}

proof fn lemma_state_position_prefix(s: Seq<Token>, state: u32, k: int)
    requires
        0 <= k <= s.len(),
        state_position(s.take(k), state) >= 0,
    ensures
        state_position(s, state) == state_position(s.take(k), state),
    decreases s.len() - k,
{
    if k < s.len() {
        assert(s.take(k + 1).drop_last() =~= s.take(k));
        lemma_state_position_prefix(s, state, k + 1);
    } else {
        assert(s.take(k) =~= s);
    }
}

/// The position of the first `State(state)` in `v`.
fn find_state(v: &Vec<Token>, state: u32) -> (r: Option<usize>)
    ensures
        r matches Some(i) ==> i as int == state_position(v@, state) && i < v.len() && v@[i as int]
            == Token::State(state),
        r is None ==> state_position(v@, state) == -1,
{
    let mut i: usize = 0;
    while i < v.len()
        invariant
            i <= v.len(),
            state_position(v@.take(i as int), state) == -1,
        decreases v.len() - i,
    {
        proof {
            assert(v@.take(i as int + 1).drop_last() =~= v@.take(i as int));
            assert(v@.take(i as int + 1).last() == v@[i as int]);
        }
        if let Token::State(s) = v[i] {
            if s == state {
                proof {
                    lemma_state_position_prefix(v@, state, i as int + 1);
                }
                return Some(i);
            }
        }
        i = i + 1;
    }
    assert(v@.take(i as int) =~= v@);
    None
}

/// The position of the first union operator in `s` at or after `from`, or `-1`.
pub open spec fn union_from(s: Seq<Token>, from: int) -> int
    decreases s.len() - from,
{
    if from >= s.len() || from < 0 {
        -1
    } else if s[from] == Token::Operator('|') {
        from
    } else {
        union_from(s, from + 1)
    }
}

/// `s[lo..hi]` with the bounds clamped to `s`.
pub open spec fn slice(s: Seq<Token>, lo: int, hi: int) -> Seq<Token> {
    if 0 <= lo <= hi <= s.len() {
        s.subrange(lo, hi)
    } else {
        Seq::empty()
    }
}

/// The result of replacing, around the first `State(state)` at position `p`,
/// the pattern `| R P` (up to the next union) by `(P)*`.
pub open spec fn ardens_result(s: Seq<Token>, p: int, star: int) -> Seq<Token> {
    slice(s, 0, p - 1) + seq![Token::OpenParent] + slice(s, p + 1, star + 1) + seq![
        Token::ClosedParent,
        Token::Operator('*'),
    ] + slice(s, star + 1, s.len() as int)
}

/// Copies `src[lo..hi]` to the end of `dst`.
fn push_range(dst: &mut Vec<Token>, src: &Vec<Token>, lo: usize, hi: usize)
    requires
        lo <= hi <= src.len(),
    ensures
        final(dst)@ == old(dst)@ + src@.subrange(lo as int, hi as int),
{
    let mut i = lo;
    while i < hi
        invariant
            lo <= i <= hi <= src.len(),
            dst@ == old(dst)@ + src@.subrange(lo as int, i as int),
        decreases hi - i,
    {
        dst.push(src[i]);
        i = i + 1;
        assert(dst@ =~= old(dst)@ + src@.subrange(lo as int, i as int));
    }
}

/// Applies Arden's theorem to the equation of `state`: where `State(state)`
/// follows a union, the pattern `| R P` (up to the next union) becomes
/// `(P)*`. An equation without `State(state)`, or where no union precedes
/// it, is left as it is.
pub fn ardens_theorem(equation: &mut Vec<Token>, state: u32)
    ensures
        ({
            let s = old(equation)@;
            let p = state_position(s, state);
            if p >= 1 && s[p - 1] == Token::Operator('|') {
                let u = union_from(s, p);
                let star = if u >= 0 {
                    u - 1
                } else {
                    s.len() - 1
                };
                final(equation)@ == ardens_result(s, p, star)
            } else {
                final(equation)@ == s
            }
        }),
{
    let ghost s = equation@;
    let state_idx = match find_state(equation, state) {
        Some(i) => i,
        None => {
            return;
        },
    };
    if state_idx == 0 {
        return;
    }
    if !matches!(equation[state_idx - 1], Token::Operator('|')) {
        return;
    }
    let mut k = state_idx;
    let mut at_union = false;
    while k < equation.len() && !at_union
        invariant
            state_idx <= k <= equation.len(),
            equation@ == s,
            union_from(s, state_idx as int) == union_from(s, k as int),
            at_union ==> k < equation.len() && s[k as int] == Token::Operator('|'),
        decreases equation.len() - k + if at_union { 0int } else { 1int },
    {
        if matches!(equation[k], Token::Operator('|')) {
            at_union = true;
        } else {
            k = k + 1;
        }
    }
    let star_idx = if k < equation.len() {
        k - 1
    } else {
        equation.len() - 1
    };
    proof {
        if k < equation.len() {
            assert(s[k as int] == Token::Operator('|'));
            assert(union_from(s, state_idx as int) == k);
        } else {
            assert(union_from(s, k as int) == -1);
        }
        assert(s[state_idx as int] == Token::State(state));
        if k < equation.len() {
            assert(k > state_idx);
        }
    }
    let copy = copy_tokens(equation);
    let mut result: Vec<Token> = Vec::new();
    push_range(&mut result, &copy, 0, state_idx - 1);
    result.push(Token::OpenParent);
    push_range(&mut result, &copy, state_idx + 1, star_idx + 1);
    result.push(Token::ClosedParent);
    result.push(Token::Operator('*'));
    push_range(&mut result, &copy, star_idx + 1, copy.len());
    proof {
        assert(result@ =~= ardens_result(s, state_idx as int, star_idx as int));
    }
    *equation = result;
}

/// The variant of Arden's theorem that takes everything after `State(state)`
/// as the repeated part: `Q | R P` becomes `Q (P)*`. An equation without
/// `State(state)`, or where it comes first, is left as it is.
pub fn new_ardens_theorem(equation: &mut Vec<Token>, state: u32)
    ensures
        ({
            let s = old(equation)@;
            let p = state_position(s, state);
            if p >= 1 {
                final(equation)@ == ardens_result(s, p, s.len() - 1)
            } else {
                final(equation)@ == s
            }
        }),
{
    let ghost s = equation@;
    let state_idx = match find_state(equation, state) {
        Some(i) => i,
        None => {
            return;
        },
    };
    if state_idx == 0 {
        return;
    }
    let star_idx = equation.len() - 1;
    let copy = copy_tokens(equation);
    let mut result: Vec<Token> = Vec::new();
    push_range(&mut result, &copy, 0, state_idx - 1);
    result.push(Token::OpenParent);
    push_range(&mut result, &copy, state_idx + 1, star_idx + 1);
    result.push(Token::ClosedParent);
    result.push(Token::Operator('*'));
    push_range(&mut result, &copy, star_idx + 1, copy.len());
    proof {
        assert(result@ =~= ardens_result(s, state_idx as int, star_idx as int));
    }
    *equation = result;
}

/// Whether the equation names any state.
pub fn contains_states(equation: &[Token]) -> (r: bool)
    ensures
        r == exists|i: int| 0 <= i < equation@.len() && #[trigger] equation@[i] is State,
{
    let mut i: usize = 0;
    while i < equation.len()
        invariant
            i <= equation@.len(),
            forall|j: int| 0 <= j < i ==> !(#[trigger] equation@[j] is State),
        decreases equation@.len() - i,
    {
        if matches!(equation[i], Token::State(_)) {
            return true;
        }
        i = i + 1;
    }
    false
}

/// Replaces the first `State(state)` of the equation by the equation that
/// `lookup_table` holds for `state`. Without such a token, or without an
/// entry for `state`, the equation stays as it is.
pub fn replace_state(equation: &mut Vec<Token>, lookup_table: &HashMap<u32, Vec<Token>>, state: u32)
    ensures
        ({
            let s = old(equation)@;
            let p = state_position(s, state);
            if p >= 0 && lookup_table@.contains_key(state) {
                final(equation)@ == s.take(p) + lookup_table@[state]@ + s.skip(p + 1)
            } else {
                final(equation)@ == s
            }
        }),
{
    let ghost s = equation@;
    let position = match find_state(equation, state) {
        Some(p) => p,
        None => {
            return;
        },
    };
    let replacement = match lookup_table.get(&state) {
        Some(r) => r,
        None => {
            return;
        },
    };
    let copy = copy_tokens(equation);
    let mut result: Vec<Token> = Vec::new();
    push_range(&mut result, &copy, 0, position);
    push_range(&mut result, replacement, 0, replacement.len());
    push_range(&mut result, &copy, position + 1, copy.len());
    proof {
        assert(replacement@.subrange(0, replacement@.len() as int) =~= replacement@);
        assert(result@ =~= s.take(position as int) + lookup_table@[state]@ + s.skip(position as int + 1));
    }
    *equation = result;
}

/// A copy of `v`.
fn copy_tokens(v: &Vec<Token>) -> (r: Vec<Token>)
    ensures
        r@ == v@,
{
    let mut r: Vec<Token> = Vec::new();
    push_range(&mut r, v, 0, v.len());
    assert(v@.subrange(0, v@.len() as int) =~= v@);
    r
}

} // verus!

use crate::dfa::Dfa;
use crate::language::EMPTY_STRING;
use vstd::prelude::*;

verus! {

/// A token of a synthesised regular expression over symbols of type `S`.
#[derive(Debug, Clone, Copy, PartialEq, Eq)]
pub enum RegexToken<S> {
    Symbol(S),
    /// The language of the empty word, written `ε`.
    EmptyString,
    /// The empty language, written `()`: an empty group, which the parser
    /// reads as the empty language.
    EmptySet,
    Union,
    KleeneStar,
    OpenParent,
    ClosedParent,
}

/// The tokens of expressions over characters.
pub type Token = RegexToken<char>;

/// A regular expression as a flat sequence of tokens.
#[derive(Debug)]
pub struct Equation(pub Vec<Token>);

/// Parentheses opened minus parentheses closed in `s`.
pub open spec fn token_depth(s: Seq<Token>) -> int
    decreases s.len(),
{
    if s.len() == 0 {
        0
    } else {
        token_depth(s.drop_last()) + if s.last() == Token::OpenParent {
            1int
        } else if s.last() == Token::ClosedParent {
            -1int
        } else {
            0int
        }
    }
}

/// `s` is one parenthesised group: its first token opens a parenthesis that
/// its last token closes.
pub open spec fn is_wrapped(s: Seq<Token>) -> bool {
    &&& s.len() >= 2
    &&& s[0] == Token::OpenParent
    &&& s.last() == Token::ClosedParent
    &&& forall|i: int| 1 <= i < s.len() ==> token_depth(#[trigger] s.take(i)) >= 1
}

/// `s` in parentheses, unless it is a single token or a group already.
pub open spec fn with_parens(s: Seq<Token>) -> Seq<Token> {
    if s.len() <= 1 || is_wrapped(s) {
        s
    } else {
        seq![Token::OpenParent] + s + seq![Token::ClosedParent]
    }
}

/// The position of the first `t` in `s`, or `-1`.
pub open spec fn first_of(s: Seq<Token>, t: Token) -> int
    decreases s.len(),
{
    if s.len() == 0 {
        -1
    } else {
        let r = first_of(s.drop_last(), t);
        if r >= 0 {
            r
        } else if s.last() == t {
            s.len() - 1
        } else {
            -1
        }
    }
}

/// Removes the parentheses of the first closed group when they hold one
/// token or none.
pub open spec fn paren_rule(s: Seq<Token>) -> Seq<Token> {
    let i = first_of(s, Token::ClosedParent);
    if i >= 2 && s[i - 2] == Token::OpenParent {
        s.remove(i).remove(i - 2)
    } else if i >= 2 && s[i - 1] == Token::OpenParent {
        s.remove(i).remove(i - 1)
    } else {
        s
    }
}

/// Drops the first `ε` when a symbol, a group or another `ε` follows it.
pub open spec fn eps_rule(s: Seq<Token>) -> Seq<Token> {
    let e = first_of(s, Token::EmptyString);
    if e >= 0 && e + 1 < s.len() && (s[e + 1] is Symbol || s[e + 1] == Token::OpenParent || s[e
        + 1] == Token::EmptyString) {
        s.remove(e)
    } else {
        s
    }
}

/// Applies both rules until neither changes anything.
pub open spec fn rewrite(s: Seq<Token>) -> Seq<Token>
    decreases s.len(),
{
    let t = eps_rule(paren_rule(s));
    if t.len() < s.len() {
        rewrite(t)
    } else {
        s
    }
}

/// The simplified form: the rules applied to exhaustion, and a lone token
/// that is neither a symbol nor `ε` dropped.
pub open spec fn simplified(s: Seq<Token>) -> Seq<Token> {
    if s.len() <= 1 {
        s
    } else {
        let t = rewrite(s);
        if t.len() == 1 && !(t[0] is Symbol || t[0] == Token::EmptyString) {
            Seq::empty()
        } else {
            t
        }
    }
}

proof fn lemma_first_of_prefix(s: Seq<Token>, t: Token, k: int)
    requires
        0 <= k <= s.len(),
        first_of(s.take(k), t) >= 0,
    ensures
        first_of(s, t) == first_of(s.take(k), t),
    decreases s.len() - k,
{
    if k < s.len() {
        assert(s.take(k + 1).drop_last() =~= s.take(k));
        lemma_first_of_prefix(s, t, k + 1);
    } else {
        assert(s.take(k) =~= s);
    }
}

/// Whether two tokens are equal.
fn same_token(a: Token, b: Token) -> (r: bool)
    ensures
        r == (a == b),
{
    match (a, b) {
        (Token::Symbol(x), Token::Symbol(y)) => x == y,
        (Token::EmptyString, Token::EmptyString) => true,
        (Token::EmptySet, Token::EmptySet) => true,
        (Token::Union, Token::Union) => true,
        (Token::KleeneStar, Token::KleeneStar) => true,
        (Token::OpenParent, Token::OpenParent) => true,
        (Token::ClosedParent, Token::ClosedParent) => true,
        _ => false,
    }
}

/// The position of the first `t` in `v`.
fn find_first(v: &Vec<Token>, t: Token) -> (r: Option<usize>)
    ensures
        r matches Some(i) ==> i as int == first_of(v@, t) && i < v.len(),
        r is None ==> first_of(v@, t) == -1,
{
    let mut i: usize = 0;
    while i < v.len()
        invariant
            i <= v.len(),
            first_of(v@.take(i as int), t) == -1,
        decreases v.len() - i,
    {
        proof {
            assert(v@.take(i as int + 1).drop_last() =~= v@.take(i as int));
            assert(v@.take(i as int + 1).last() == v@[i as int]);
        }
        if same_token(v[i], t) {
            proof {
                lemma_first_of_prefix(v@, t, i as int + 1);
            }
            return Some(i);
        }
        i = i + 1;
    }
    assert(v@.take(i as int) =~= v@);
    None
}

impl Default for Equation {
    /// The empty equation.
    fn default() -> (r: Self)
        ensures
            r.0@.len() == 0,
    {
        Equation::new()
    }
}

impl Equation {
    pub fn new() -> (r: Self)
        ensures
            r.0@.len() == 0,
    {
        Equation(Vec::new())
    }

    /// Puts the equation in parentheses, unless it is a single token or a
    /// parenthesised group already.
    pub fn add_parenthasis(&mut self)
        ensures
            final(self).0@ == with_parens(old(self).0@),
    {
        if self.0.len() <= 1 {
            return;
        }
        if self.is_wrapped() {
            return;
        }
        self.0.insert(0, Token::OpenParent);
        self.0.push(Token::ClosedParent);
        proof {
            assert(self.0@ =~= seq![Token::OpenParent] + old(self).0@ + seq![Token::ClosedParent]);
        }
    }

    /// Whether the equation is one parenthesised group.
    fn is_wrapped(&self) -> (r: bool)
        ensures
            r == is_wrapped(self.0@),
    {
        let s = &self.0;
        let n = s.len();
        if n < 2 || !matches!(s[0], Token::OpenParent) || !matches!(s[n - 1], Token::ClosedParent) {
            return false;
        }
        proof {
            assert(s@.take(1).drop_last() =~= Seq::<Token>::empty());
            assert(s@.take(1).last() == Token::OpenParent);
            assert(token_depth(s@.take(1).drop_last()) == 0);
            assert(token_depth(s@.take(1)) == 1);
        }
        let mut depth: usize = 1;
        let mut i: usize = 1;
        while i < n - 1
            invariant
                2 <= n == s@.len(),
                s@ == self.0@,
                1 <= i <= n - 1,
                depth as int == token_depth(s@.take(i as int)),
                depth >= 1,
                depth <= i,
                forall|j: int| 1 <= j <= i ==> token_depth(#[trigger] s@.take(j)) >= 1,
            decreases n - 1 - i,
        {
            proof {
                assert(s@.take(i as int + 1).drop_last() =~= s@.take(i as int));
                assert(s@.take(i as int + 1).last() == s@[i as int]);
            }
            if matches!(s[i], Token::OpenParent) {
                depth = depth + 1;
            } else if matches!(s[i], Token::ClosedParent) {
                if depth == 1 {
                    assert(token_depth(s@.take(i as int + 1)) == 0);
                    assert(1 <= i + 1 < s@.len());
                    assert(!(token_depth(s@.take(i as int + 1)) >= 1));
                    assert(!is_wrapped(s@));
                    assert(s@ == self.0@);
                    assert(!is_wrapped(self.0@));
                    return false;
                }
                depth = depth - 1;
            }
            i = i + 1;
        }
        true
    }

    /// Simplifies the equation: parentheses around one token or none are
    /// dropped, and so is an `ε` that a symbol, a group or another `ε`
    /// follows, until neither applies; a lone token that is neither a
    /// symbol nor `ε` is dropped.
    pub fn simplify(&mut self)
        ensures
            final(self).0@ == simplified(old(self).0@),
    {
        if self.0.len() <= 1 {
            return;
        }
        loop
            invariant
                rewrite(self.0@) == rewrite(old(self).0@),
            ensures
                self.0@ == rewrite(old(self).0@),
            decreases self.0@.len(),
        {
            let ghost before = self.0@;
            let mut changed = false;
            match find_first(&self.0, Token::ClosedParent) {
                Some(index) => {
                    if index >= 2 && matches!(self.0[index - 2], Token::OpenParent) {
                        self.0.remove(index);
                        self.0.remove(index - 2);
                        changed = true;
                    } else if index >= 2 && matches!(self.0[index - 1], Token::OpenParent) {
                        self.0.remove(index);
                        self.0.remove(index - 1);
                        changed = true;
                    }
                },
                None => {},
            }
            assert(self.0@ == paren_rule(before));
            let ghost mid = self.0@;
            match find_first(&self.0, Token::EmptyString) {
                Some(e) => {
                    if e + 1 < self.0.len() {
                        let next = self.0[e + 1];
                        if matches!(next, Token::Symbol(_)) || matches!(next, Token::OpenParent)
                            || matches!(next, Token::EmptyString) {
                            self.0.remove(e);
                            changed = true;
                        }
                    }
                },
                None => {},
            }
            assert(self.0@ == eps_rule(mid));
            if !changed {
                assert(rewrite(before) == before);
                break;
            }
            assert(self.0@.len() < before.len());
            assert(rewrite(before) == rewrite(self.0@));
        }
        if self.0.len() == 1 {
            let t = self.0[0];
            if !(matches!(t, Token::Symbol(_)) || matches!(t, Token::EmptyString)) {
                self.0.remove(0);
                assert(self.0@ =~= Seq::<Token>::empty());
            }
        }
    }

    /// Whether the equation is the empty language alone.
    pub fn is_empty_set(&self) -> (r: bool)
        ensures
            r == (self.0@.len() == 1 && self.0@[0] == Token::EmptySet),
    {
        self.0.len() == 1 && matches!(self.0[0], Token::EmptySet)
    }
}


/// The symbols of `s`, in order, that label a transition from `i` to `j`.
pub open spec fn labels_in(dfa: &Dfa, s: Seq<char>, i: u32, j: u32) -> Seq<char>
    decreases s.len(),
{
    if s.len() == 0 {
        Seq::empty()
    } else if dfa.has_edge(i, s.last(), j) {
        labels_in(dfa, s.drop_last(), i, j).push(s.last())
    } else {
        labels_in(dfa, s.drop_last(), i, j)
    }
}

/// Each token of `s` followed by a union.
pub open spec fn with_unions(s: Seq<Token>) -> Seq<Token>
    decreases s.len(),
{
    if s.len() == 0 {
        Seq::empty()
    } else {
        with_unions(s.drop_last()).push(s.last()).push(Token::Union)
    }
}

/// The tokens of `items` joined by unions; the empty language where there are none.
pub open spec fn union_of(items: Seq<Token>) -> Seq<Token> {
    if items.len() == 0 {
        seq![Token::EmptySet]
    } else {
        with_unions(items).drop_last()
    }
}

/// The symbol tokens of `cs`.
pub open spec fn symbols(cs: Seq<char>) -> Seq<Token> {
    cs.map_values(|c: char| Token::Symbol(c))
}

/// The paths from `i` to `j` through no other state: `ε` where `i == j`,
/// and the symbols of the direct transitions in increasing order of code
/// point, joined by unions; the empty language where there is neither.
pub open spec fn initial_eq(dfa: &Dfa, i: u32, j: u32) -> Seq<Token> {
    union_of(
        (if i == j {
            seq![Token::EmptyString]
        } else {
            Seq::empty()
        }) + symbols(sort_chars(labels_in(dfa, dfa.alphabet@, i, j))),
    )
}

pub open spec fn is_empty_set_seq(s: Seq<Token>) -> bool {
    s.len() == 1 && s[0] == Token::EmptySet
}

/// One step of the Kleene construction: `r1 | r2 r3* r4`, where an empty
/// language operand drops its branch and `∅*` becomes `ε`.
pub open spec fn combine(r1: Seq<Token>, r2: Seq<Token>, r3: Seq<Token>, r4: Seq<Token>) -> Seq<Token> {
    let first = if is_empty_set_seq(r1) {
        Seq::empty()
    } else {
        simplified(with_parens(r1)) + seq![Token::Union]
    };
    let eq = if !is_empty_set_seq(r2) && !is_empty_set_seq(r4) {
        first + simplified(with_parens(r2)) + (if is_empty_set_seq(r3) {
            seq![Token::EmptyString]
        } else {
            simplified(with_parens(r3) + seq![Token::KleeneStar])
        }) + simplified(with_parens(r4))
    } else if first.len() > 0 {
        first.drop_last()
    } else {
        first
    };
    if eq.len() == 0 {
        seq![Token::EmptySet]
    } else {
        eq
    }
}

/// The paths from `i` to `j` whose inner states are all below `k`.
pub open spec fn kleene(dfa: &Dfa, i: u32, j: u32, k: nat) -> Seq<Token>
    decreases k,
{
    if k == 0 {
        initial_eq(dfa, i, j)
    } else {
        let m = (k - 1) as u32;
        combine(
            kleene(dfa, i, j, (k - 1) as nat),
            kleene(dfa, i, m, (k - 1) as nat),
            kleene(dfa, m, m, (k - 1) as nat),
            kleene(dfa, m, j, (k - 1) as nat),
        )
    }
}

/// The expressions of the paths from the start state to each state of
/// `acc`, each followed by a union.
pub open spec fn accept_unions(dfa: &Dfa, acc: Seq<u32>) -> Seq<Token>
    decreases acc.len(),
{
    if acc.len() == 0 {
        Seq::empty()
    } else {
        accept_unions(dfa, acc.drop_last()) + kleene(dfa, 0, acc.last(), dfa.num_states as nat)
            + seq![Token::Union]
    }
}

/// The expression of the language of `dfa`: the union of the paths from the
/// start state to each accept state; the empty language where there is no
/// accept state.
pub open spec fn regex_of(dfa: &Dfa) -> Seq<Token> {
    let u = accept_unions(dfa, dfa.accept_states@);
    if u.len() == 0 {
        seq![Token::EmptySet]
    } else {
        u.drop_last()
    }
}

/// How a token is written.
pub open spec fn render_token(t: Token) -> Seq<char> {
    match t {
        Token::Symbol(c) => seq![c],
        Token::EmptyString => seq![EMPTY_STRING],
        Token::EmptySet => seq!['(', ')'],
        Token::Union => seq!['|'],
        Token::KleeneStar => seq!['*'],
        Token::OpenParent => seq!['('],
        Token::ClosedParent => seq![')'],
    }
}

pub open spec fn render(s: Seq<Token>) -> Seq<char>
    decreases s.len(),
{
    if s.len() == 0 {
        Seq::empty()
    } else {
        render(s.drop_last()) + render_token(s.last())
    }
}

/// A copy of `v`.
fn copy_tokens(v: &Vec<Token>) -> (r: Vec<Token>)
    ensures
        r@ == v@,
{
    let mut r: Vec<Token> = Vec::new();
    let mut i: usize = 0;
    while i < v.len()
        invariant
            i <= v.len(),
            r@ == v@.take(i as int),
        decreases v.len() - i,
    {
        r.push(v[i]);
        i = i + 1;
        assert(r@ =~= v@.take(i as int));
    }
    assert(v@.take(i as int) =~= v@);
    r
}

/// Appends `src` to `dst`.
fn append_tokens(dst: &mut Vec<Token>, src: &Vec<Token>)
    ensures
        final(dst)@ == old(dst)@ + src@,
{
    let mut i: usize = 0;
    while i < src.len()
        invariant
            i <= src.len(),
            dst@ == old(dst)@ + src@.take(i as int),
        decreases src.len() - i,
    {
        dst.push(src[i]);
        i = i + 1;
        assert(dst@ =~= old(dst)@ + src@.take(i as int));
    }
    assert(src@.take(i as int) =~= src@);
}

/// The expression of the paths from `i` to `j` through no other state.
pub fn get_initial_eq(dfa: &Dfa, pair: (u32, u32)) -> (r: Equation)
    requires
        dfa.wf(),
    ensures
        r.0@ == initial_eq(dfa, pair.0, pair.1),
{
    let (i, j) = pair;
    let mut syms: Vec<char> = Vec::new();
    let mut k: usize = 0;
    while k < dfa.alphabet.len()
        invariant
            dfa.wf(),
            k <= dfa.alphabet.len(),
            syms@ == labels_in(dfa, dfa.alphabet@.take(k as int), i, j),
        decreases dfa.alphabet.len() - k,
    {
        let a = dfa.alphabet[k];
        let found = match dfa.get_transition((i, a)) {
            Some(d) => {
                proof {
                    dfa.lemma_target(i, a, d);
                    if dfa.has_edge(i, a, j) {
                        dfa.lemma_target(i, a, j);
                    }
                }
                d == j
            },
            None => false,
        };
        assert(found == dfa.has_edge(i, a, j));
        if found {
            syms.push(a);
        }
        proof {
            let s1 = dfa.alphabet@.take(k as int + 1);
            assert(s1.drop_last() =~= dfa.alphabet@.take(k as int));
            assert(s1.last() == a);
        }
        k = k + 1;
    }
    assert(dfa.alphabet@.take(k as int) =~= dfa.alphabet@);
    let mut sorted: Vec<char> = Vec::new();
    let mut m: usize = 0;
    while m < syms.len()
        invariant
            m <= syms.len(),
            sorted@ == sort_chars(syms@.take(m as int)),
        decreases syms.len() - m,
    {
        proof {
            assert(syms@.take(m as int + 1).drop_last() =~= syms@.take(m as int));
            assert(syms@.take(m as int + 1).last() == syms@[m as int]);
        }
        insert_char_sorted(&mut sorted, syms[m]);
        m = m + 1;
    }
    assert(syms@.take(m as int) =~= syms@);
    let mut eqv = Equation::new();
    let ghost head: Seq<Token> = if i == j {
        seq![Token::EmptyString]
    } else {
        Seq::empty()
    };
    if i == j {
        eqv.0.push(Token::EmptyString);
        eqv.0.push(Token::Union);
        proof {
            assert(head.drop_last() =~= Seq::<Token>::empty());
            assert(with_unions(head.drop_last()).len() == 0);
            assert(eqv.0@ =~= with_unions(head));
        }
    } else {
        assert(head.len() == 0);
        assert(with_unions(head).len() == 0);
        assert(eqv.0@ =~= with_unions(head));
    }
    assert(head + symbols(sorted@.take(0)) =~= head);
    let mut x: usize = 0;
    while x < sorted.len()
        invariant
            x <= sorted.len(),
            eqv.0@ == with_unions(head + symbols(sorted@.take(x as int))),
        decreases sorted.len() - x,
    {
        let c = sorted[x];
        let ghost items = head + symbols(sorted@.take(x as int));
        eqv.0.push(Token::Symbol(c));
        eqv.0.push(Token::Union);
        proof {
            let next = head + symbols(sorted@.take(x as int + 1));
            assert(sorted@.take(x as int + 1) =~= sorted@.take(x as int).push(c));
            assert(symbols(sorted@.take(x as int + 1)) =~= symbols(sorted@.take(x as int)).push(Token::Symbol(c)));
            assert(next =~= items.push(Token::Symbol(c)));
            assert(next.drop_last() =~= items);
            assert(eqv.0@ =~= with_unions(next));
        }
        x = x + 1;
    }
    assert(sorted@.take(x as int) =~= sorted@);
    let ghost all = head + symbols(sorted@);
    eqv.0.pop();
    if eqv.0.len() == 0 {
        eqv.0.push(Token::EmptySet);
        proof {
            if all.len() > 0 {
                assert(all.drop_last().len() + 1 == all.len());
            }
        }
    }
    proof {
        lemma_with_unions_len(all);
    }
    eqv
}

/// `s` with `c` put before its first character of a larger code point.
pub open spec fn insert_char(s: Seq<char>, c: char) -> Seq<char>
    decreases s.len(),
{
    if s.len() == 0 {
        seq![c]
    } else if (c as u32) < (s[0] as u32) {
        seq![c] + s
    } else {
        seq![s[0]] + insert_char(s.drop_first(), c)
    }
}

/// The characters of `s` in increasing order of code point, by insertion.
pub open spec fn sort_chars(s: Seq<char>) -> Seq<char>
    decreases s.len(),
{
    if s.len() == 0 {
        s
    } else {
        insert_char(sort_chars(s.drop_last()), s.last())
    }
}

proof fn lemma_insert_char(s: Seq<char>, c: char, i: int)
    requires
        0 <= i <= s.len(),
        forall|k: int| 0 <= k < i ==> !((c as u32) < (#[trigger] s[k] as u32)),
        i == s.len() || (c as u32) < (s[i] as u32),
    ensures
        insert_char(s, c) == s.take(i).push(c) + s.skip(i),
    decreases i,
{
    if i == 0 {
        if s.len() == 0 {
            assert(s.take(0).push(c) + s.skip(0) =~= seq![c]);
        } else {
            assert(s.take(0).push(c) + s.skip(0) =~= seq![c] + s);
        }
    } else {
        let t = s.drop_first();
        assert forall|k: int| 0 <= k < i - 1 implies !((c as u32) < (#[trigger] t[k] as u32)) by {
            assert(t[k] == s[k + 1]);
        }
        if i - 1 < t.len() {
            assert(t[i - 1] == s[i]);
        }
        lemma_insert_char(t, c, i - 1);
        assert(seq![s[0]] + (t.take(i - 1).push(c) + t.skip(i - 1)) =~= s.take(i).push(c) + s.skip(i));
    }
}

/// Inserts `c` into `v` before its first character of a larger code point.
fn insert_char_sorted(v: &mut Vec<char>, c: char)
    ensures
        final(v)@ == insert_char(old(v)@, c),
{
    let mut i: usize = 0;
    while i < v.len() && !((c as u32) < (v[i] as u32))
        invariant
            i <= v.len(),
            v@ == old(v)@,
            forall|k: int| 0 <= k < i ==> !((c as u32) < (#[trigger] v@[k] as u32)),
        decreases v.len() - i,
    {
        i = i + 1;
    }
    proof {
        lemma_insert_char(v@, c, i as int);
    }
    v.insert(i, c);
    assert(v@ =~= old(v)@.take(i as int).push(c) + old(v)@.skip(i as int));
}

proof fn lemma_with_unions_len(s: Seq<Token>)
    ensures
        with_unions(s).len() == 2 * s.len(),
    decreases s.len(),
{
    if s.len() > 0 {
        lemma_with_unions_len(s.drop_last());
    }
}


/// A copy of the equation.
fn copy_equation(e: &Equation) -> (r: Equation)
    ensures
        r.0@ == e.0@,
{
    Equation(copy_tokens(&e.0))
}

/// `r1 | r2 r3* r4`, simplified as the Kleene construction asks.
fn kleene_step(r1: &Equation, r2: &Equation, r3: &Equation, r4: &Equation) -> (r: Equation)
    ensures
        r.0@ == combine(r1.0@, r2.0@, r3.0@, r4.0@),
{
    let mut eq = Equation::new();
    if !r1.is_empty_set() {
        let mut a = copy_equation(r1);
        a.add_parenthasis();
        a.simplify();
        append_tokens(&mut eq.0, &a.0);
        eq.0.push(Token::Union);
    }
    let ghost first = eq.0@;
    assert(first == if is_empty_set_seq(r1.0@) {
        Seq::<Token>::empty()
    } else {
        simplified(with_parens(r1.0@)) + seq![Token::Union]
    });
    if !r2.is_empty_set() && !r4.is_empty_set() {
        let mut b = copy_equation(r2);
        b.add_parenthasis();
        b.simplify();
        append_tokens(&mut eq.0, &b.0);
        let ghost e1 = eq.0@;
        let ghost mid3: Seq<Token> = if is_empty_set_seq(r3.0@) {
            seq![Token::EmptyString]
        } else {
            simplified(with_parens(r3.0@) + seq![Token::KleeneStar])
        };
        if r3.is_empty_set() {
            eq.0.push(Token::EmptyString);
            assert(eq.0@ =~= e1 + mid3);
        } else {
            let mut c = copy_equation(r3);
            c.add_parenthasis();
            c.0.push(Token::KleeneStar);
            assert(c.0@ =~= with_parens(r3.0@) + seq![Token::KleeneStar]);
            c.simplify();
            append_tokens(&mut eq.0, &c.0);
            assert(eq.0@ =~= e1 + mid3);
        }
        let mut d = copy_equation(r4);
        d.add_parenthasis();
        d.simplify();
        append_tokens(&mut eq.0, &d.0);
        assert(eq.0@ =~= first + simplified(with_parens(r2.0@)) + mid3 + simplified(with_parens(r4.0@)));
    } else {
        eq.0.pop();
        proof {
            if first.len() > 0 {
                assert(eq.0@ =~= first.drop_last());
            } else {
                assert(eq.0@ =~= first);
            }
        }
    }
    let ghost mid = eq.0@;
    if eq.0.len() == 0 {
        eq.0.push(Token::EmptySet);
        assert(eq.0@ =~= seq![Token::EmptySet]);
    }
    eq
}

/// A table of the equations `R[i][j]` for the paths through states below `k`.
pub open spec fn is_table(dfa: &Dfa, t: Seq<Vec<Equation>>, k: nat) -> bool {
    &&& t.len() == dfa.num_states
    &&& forall|i: int| 0 <= i < t.len() ==> (#[trigger] t[i])@.len() == dfa.num_states
    &&& forall|i: int, j: int|
        0 <= i < t.len() && 0 <= j < dfa.num_states ==> (#[trigger] t[i]@[j]).0@ == kleene(
            dfa,
            i as u32,
            j as u32,
            k,
        )
}

/// Synthesises a regular expression for the language of a DFA by the Kleene
/// construction: `R[i][j]` for the paths through states below `k` is built
/// for `k` from `0` to the number of states, and the result is the union of
/// `R[0][f]` over the accept states `f`.
pub fn get_regex(old_dfa: &Dfa) -> (r: Equation)
    requires
        old_dfa.wf(),
    ensures
        r.0@ == regex_of(old_dfa),
{
    let dfa = old_dfa;
    let n = dfa.num_states;
    let mut table: Vec<Vec<Equation>> = Vec::new();
    let mut i: u32 = 0;
    while i < n
        invariant
            dfa.wf(),
            n == dfa.num_states,
            i <= n,
            table@.len() == i,
            forall|x: int| 0 <= x < i ==> (#[trigger] table@[x])@.len() == n,
            forall|x: int, y: int|
                0 <= x < i && 0 <= y < n ==> (#[trigger] table@[x]@[y]).0@ == kleene(dfa, x as u32, y as u32, 0),
        decreases n - i,
    {
        let mut row: Vec<Equation> = Vec::new();
        let mut j: u32 = 0;
        while j < n
            invariant
                dfa.wf(),
                n == dfa.num_states,
                i < n,
                j <= n,
                row@.len() == j,
                forall|y: int| 0 <= y < j ==> (#[trigger] row@[y]).0@ == kleene(dfa, i, y as u32, 0),
            decreases n - j,
        {
            row.push(get_initial_eq(dfa, (i, j)));
            j = j + 1;
        }
        table.push(row);
        proof {
            assert forall|x: int, y: int|
                0 <= x < i + 1 && 0 <= y < n implies (#[trigger] table@[x]@[y]).0@ == kleene(dfa, x as u32, y as u32, 0) by {
                if x == i {
                    assert(table@[x]@[y].0@ == kleene(dfa, i, y as u32, 0));
                }
            }
        }
        i = i + 1;
    }
    let mut k: u32 = 0;
    while k < n
        invariant
            dfa.wf(),
            n == dfa.num_states,
            k <= n,
            is_table(dfa, table@, k as nat),
        decreases n - k,
    {
        let mut next: Vec<Vec<Equation>> = Vec::new();
        let mut i: u32 = 0;
        while i < n
            invariant
                dfa.wf(),
                n == dfa.num_states,
                k < n,
                i <= n,
                is_table(dfa, table@, k as nat),
                next@.len() == i,
                forall|x: int| 0 <= x < i ==> (#[trigger] next@[x])@.len() == n,
                forall|x: int, y: int|
                    0 <= x < i && 0 <= y < n ==> (#[trigger] next@[x]@[y]).0@ == kleene(dfa, x as u32, y as u32, k as nat + 1),
            decreases n - i,
        {
            let mut row: Vec<Equation> = Vec::new();
            let mut j: u32 = 0;
            while j < n
                invariant
                    dfa.wf(),
                    n == dfa.num_states,
                    k < n,
                    i < n,
                    j <= n,
                    is_table(dfa, table@, k as nat),
                    row@.len() == j,
                    forall|y: int| 0 <= y < j ==> (#[trigger] row@[y]).0@ == kleene(dfa, i, y as u32, k as nat + 1),
                decreases n - j,
            {
                let iu = i as usize;
                let ju = j as usize;
                let ku = k as usize;
                assert(table@[iu as int]@.len() == n && table@[ku as int]@.len() == n);
                let eq = kleene_step(&table[iu][ju], &table[iu][ku], &table[ku][ku], &table[ku][ju]);
                proof {
                    assert(table@[iu as int]@[ju as int].0@ == kleene(dfa, i, j, k as nat));
                    assert(table@[iu as int]@[ku as int].0@ == kleene(dfa, i, k, k as nat));
                    assert(table@[ku as int]@[ku as int].0@ == kleene(dfa, k, k, k as nat));
                    assert(table@[ku as int]@[ju as int].0@ == kleene(dfa, k, j, k as nat));
                    assert(((k as nat + 1) - 1) as u32 == k);
                }
                row.push(eq);
                j = j + 1;
            }
            next.push(row);
            proof {
                assert forall|x: int, y: int|
                    0 <= x < i + 1 && 0 <= y < n implies (#[trigger] next@[x]@[y]).0@ == kleene(dfa, x as u32, y as u32, k as nat + 1) by {
                    if x == i {
                        assert(next@[x]@[y].0@ == kleene(dfa, i, y as u32, k as nat + 1));
                    }
                }
            }
            i = i + 1;
        }
        table = next;
        k = k + 1;
    }
    let mut regex = Equation::new();
    let mut idx: usize = 0;
    while idx < dfa.accept_states.len()
        invariant
            dfa.wf(),
            n == dfa.num_states,
            is_table(dfa, table@, n as nat),
            idx <= dfa.accept_states.len(),
            regex.0@ == accept_unions(dfa, dfa.accept_states@.take(idx as int)),
        decreases dfa.accept_states.len() - idx,
    {
        let f = dfa.accept_states[idx];
        assert(dfa.accept_states@[idx as int] == f);
        assert(table@[0]@.len() == n);
        append_tokens(&mut regex.0, &table[0][f as usize].0);
        regex.0.push(Token::Union);
        proof {
            let acc = dfa.accept_states@.take(idx as int + 1);
            assert(acc.drop_last() =~= dfa.accept_states@.take(idx as int));
            assert(acc.last() == f);
            assert(table@[0]@[f as int].0@ == kleene(dfa, 0, f, n as nat));
            assert(regex.0@ =~= accept_unions(dfa, acc));
        }
        idx = idx + 1;
    }
    assert(dfa.accept_states@.take(idx as int) =~= dfa.accept_states@);
    regex.0.pop();
    if regex.0.len() == 0 {
        regex.0.push(Token::EmptySet);
        assert(regex.0@ =~= seq![Token::EmptySet]);
    }
    regex
}

impl Equation {
    /// The characters of the expression: `|`, `*`, `(` and `)` for the
    /// operators, `ε` for the empty word, `()` for the empty language.
    pub fn chars(&self) -> (r: Vec<char>)
        ensures
            r@ == render(self.0@),
    {
        let mut r: Vec<char> = Vec::new();
        let mut i: usize = 0;
        while i < self.0.len()
            invariant
                i <= self.0.len(),
                r@ == render(self.0@.take(i as int)),
            decreases self.0.len() - i,
        {
            let ghost before = r@;
            match self.0[i] {
                Token::Symbol(c) => r.push(c),
                Token::EmptyString => r.push(EMPTY_STRING),
                Token::EmptySet => {
                    r.push('(');
                    r.push(')');
                },
                Token::Union => r.push('|'),
                Token::KleeneStar => r.push('*'),
                Token::OpenParent => r.push('('),
                Token::ClosedParent => r.push(')'),
            }
            proof {
                let t = self.0@.take(i as int + 1);
                assert(t.drop_last() =~= self.0@.take(i as int));
                assert(t.last() == self.0@[i as int]);
                assert(r@ =~= before + render_token(self.0@[i as int]));
            }
            i = i + 1;
        }
        assert(self.0@.take(i as int) =~= self.0@);
        r
    }

    /// The expression as a string; the empty language is written `()`.
    pub fn to_string(&self) -> (r: String)
        ensures
            r@ == render(self.0@),
    {
        let cs = self.chars();
        crate::util::string_from_chars(&cs)
    }
}

impl Dfa {
    /// A regular expression for the language of the automaton.
    pub fn to_regex(&self) -> (r: String)
        requires
            self.wf(),
        ensures
            r@ == render(regex_of(self)),
    {
        get_regex(self).to_string()
    }
}

} // verus!

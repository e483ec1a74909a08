use crate::language::{Error, EMPTY_STRING};
use crate::nfa::{eps_closed, is_eps_closure, move_set, unmarked, Nfa};
use itertools::Itertools;
use vstd::prelude::*;

verus! {

/// The characters of a string slice, in order.
pub fn chars_of(s: &str) -> (r: Vec<char>)
    ensures
        r@ == s@,
{
    let mut r: Vec<char> = Vec::new();
    for c in it: s.chars()
        invariant
            it.seq() == s@,
            r@ == it.seq().take(it.index() as int),
    {
        r.push(c);
    }
    r
}

/// Nesting depth of parentheses after reading `s`; `)` counts minus one.
pub open spec fn paren_depth(s: Seq<char>) -> int
    decreases s.len(),
{
    if s.len() == 0 {
        0
    } else {
        paren_depth(s.drop_last()) + if s.last() == '(' {
            1int
        } else if s.last() == ')' {
            -1int
        } else {
            0int
        }
    }
}

/// Every `(` is closed and no prefix closes more parentheses than it opened.
pub open spec fn parens_balanced(s: Seq<char>) -> bool {
    &&& paren_depth(s) == 0
    &&& forall|i: int| 0 <= i <= s.len() ==> paren_depth(#[trigger] s.take(i)) >= 0
}

/// The adjacent pairs that can never occur in a well-formed expression:
/// `(|`, `|)`, `(*`, `|*`, `||` and `**`.
pub open spec fn forbidden_pair(a: char, b: char) -> bool {
    ||| a == '(' && b == '|'
    ||| a == '|' && b == ')'
    ||| a == '(' && b == '*'
    ||| a == '|' && b == '*'
    ||| a == '|' && b == '|'
    ||| a == '*' && b == '*'
}

pub open spec fn has_forbidden_pair(s: Seq<char>) -> bool {
    exists|i: int| 0 <= i < s.len() - 1 && #[trigger] forbidden_pair(s[i], s[i + 1])
}

/// What the validator accepts.
pub open spec fn is_valid_regex(s: Seq<char>) -> bool {
    parens_balanced(s) && !has_forbidden_pair(s)
}

pub proof fn lemma_depth_step(s: Seq<char>, i: int)
    requires
        0 <= i < s.len(),
    ensures
        paren_depth(s.take(i + 1)) == paren_depth(s.take(i)) + if s[i] == '(' {
            1int
        } else if s[i] == ')' {
            -1int
        } else {
            0int
        },
{
    assert(s.take(i + 1).drop_last() =~= s.take(i));
}

/// Checks the given regular expression for correctness: parentheses must
/// balance with no prefix closing more than it opened, and none of the
/// forbidden adjacent pairs may occur.
pub fn check_for_correctness(regex: &str) -> (r: Result<(), Error>)
    ensures
        r is Ok <==> is_valid_regex(regex@),
        r is Err ==> r == Err::<(), Error>(Error::MalformedRegex),
{
    let s = chars_of(regex);
    let n = s.len();
    let mut counter: usize = 0;
    let mut nonneg = true;
    let mut i: usize = 0;
    while i < n
        invariant
            n == s@.len(),
            s@ == regex@,
            i <= n,
            nonneg ==> counter as int == paren_depth(s@.take(i as int)),
            counter <= i,
            nonneg <==> forall|j: int| 0 <= j <= i ==> paren_depth(#[trigger] s@.take(j)) >= 0,
        decreases n - i,
    {
        proof {
            lemma_depth_step(s@, i as int);
        }
        if nonneg {
            if s[i] == '(' {
                counter = counter + 1;
            } else if s[i] == ')' {
                if counter == 0 {
                    nonneg = false;
                } else {
                    counter = counter - 1;
                }
            }
        }
        proof {
            if nonneg {
                assert forall|j: int| 0 <= j <= i + 1 implies paren_depth(
                    #[trigger] s@.take(j),
                ) >= 0 by {
                    if j == i + 1 {
                    }
                }
            } else {
                assert(!(forall|j: int|
                    0 <= j <= i + 1 ==> paren_depth(#[trigger] s@.take(j)) >= 0)) by {
                    if paren_depth(s@.take(i as int + 1)) >= 0 {
                        assert(exists|j: int|
                            0 <= j <= i && paren_depth(#[trigger] s@.take(j)) < 0);
                    }
                }
            }
        }
        i = i + 1;
    }
    assert(s@.take(n as int) =~= s@);
    let mut k: usize = 0;
    while k + 1 < n
        invariant
            k == 0 || k < n,
            n == s@.len(),
            s@ == regex@,
            forall|j: int| 0 <= j < k && j + 1 < n ==> !forbidden_pair(s@[j], #[trigger] s@[j + 1]),
        decreases n - k,
    {
        let a = s[k];
        let b = s[k + 1];
        if (a == '(' && b == '|') || (a == '|' && b == ')') || (a == '(' && b == '*') || (a == '|'
            && b == '*') || (a == '|' && b == '|') || (a == '*' && b == '*') {
            assert(forbidden_pair(s@[k as int], s@[k + 1]));
            return Err(Error::MalformedRegex);
        }
        k = k + 1;
    }
    assert(!has_forbidden_pair(s@)) by {
        assert forall|j: int| 0 <= j < s@.len() - 1 implies !#[trigger] forbidden_pair(
            s@[j],
            s@[j + 1],
        ) by {
            assert(!forbidden_pair(s@[j], s@[j + 1]));
        }
    }
    if nonneg && counter == 0 {
        Ok(())
    } else {
        Err(Error::MalformedRegex)
    }
}

} // verus!

verus! {

/// Strictly increasing, hence sorted and free of duplicates.
pub open spec fn sorted_strict(s: Seq<u32>) -> bool {
    forall|i: int, j: int| 0 <= i < j < s.len() ==> s[i] < s[j]
}

/// A sequence of distinct values below `n` has at most `n` elements.
pub proof fn lemma_distinct_below(s: Seq<u32>, n: u32)
    requires
        s.no_duplicates(),
        forall|i: int| 0 <= i < s.len() ==> s[i] < n,
    ensures
        s.len() <= n,
{
    s.unique_seq_to_set();
    assert(s.to_set().subset_of(Set::<u32>::range(0, n)));
    vstd::set_lib::range_set_properties::<u32>(0, n);
    vstd::set_lib::lemma_len_subset(s.to_set(), Set::<u32>::range(0, n));
}

/// The values below `n` that a membership table marks, in increasing order.
pub fn marked_values(marks: &Vec<bool>) -> (r: Vec<u32>)
    requires
        marks.len() <= u32::MAX,
    ensures
        sorted_strict(r@),
        forall|d: u32| r@.contains(d) <==> (d < marks.len() && marks@[d as int]),
{
    let mut r: Vec<u32> = Vec::new();
    let mut q: usize = 0;
    while q < marks.len()
        invariant
            q <= marks.len() <= u32::MAX,
            sorted_strict(r@),
            forall|i: int| 0 <= i < r.len() ==> r@[i] < q,
            forall|d: u32| r@.contains(d) <==> (d < q && marks@[d as int]),
        decreases marks.len() - q,
    {
        let ghost old_r = r@;
        if marks[q] {
            r.push(q as u32);
            assert(r@.last() == q as u32);
        }
        proof {
            assert forall|d: u32| r@.contains(d) <==> (d < q + 1 && marks@[d as int]) by {
                if d == q as u32 && marks@[d as int] {
                    assert(r@[r.len() - 1] == d);
                }
                if r@.contains(d) && d != q as u32 {
                    let k = choose|k: int| 0 <= k < r.len() && r@[k] == d;
                    if marks@[q as int] {
                        assert(k < r.len() - 1);
                        assert(old_r[k] == d);
                    }
                    assert(old_r.contains(d));
                }
                if d < q && marks@[d as int] {
                    assert(old_r.contains(d));
                    let k = choose|k: int| 0 <= k < old_r.len() && old_r[k] == d;
                    assert(r@[k] == d);
                }
            }
        }
        q = q + 1;
    }
    r
}

} // verus!

verus! {

/// The transitions of `e` that neither leave nor enter state `s`, in order.
pub fn edges_avoiding_state(e: &Vec<(u32, char, u32)>, s: u32) -> (r: Vec<(u32, char, u32)>)
    ensures
        forall|t: (u32, char, u32)| r@.contains(t) <==> (e@.contains(t) && t.0 != s && t.2 != s),
        e@.no_duplicates() ==> r@.no_duplicates(),
        r@.len() <= e@.len(),
{
    let mut r: Vec<(u32, char, u32)> = Vec::new();
    let mut k: usize = 0;
    while k < e.len()
        invariant
            k <= e.len(),
            r@.len() <= k,
            forall|t: (u32, char, u32)|
                r@.contains(t) <==> (exists|j: int| 0 <= j < k && e@[j] == t) && t.0 != s && t.2
                    != s,
            e@.no_duplicates() ==> r@.no_duplicates(),
        decreases e.len() - k,
    {
        let t = e[k];
        let ghost old_r = r@;
        if t.0 != s && t.2 != s {
            r.push(t);
        }
        proof {
            assert forall|x: (u32, char, u32)|
                r@.contains(x) <==> (exists|j: int| 0 <= j < k + 1 && e@[j] == x) && x.0 != s
                    && x.2 != s by {
                if r@.contains(x) && x != t {
                    let i = choose|i: int| 0 <= i < r@.len() && r@[i] == x;
                    assert(old_r[i] == x);
                    assert(old_r.contains(x));
                    let j = choose|j: int| 0 <= j < k && e@[j] == x;
                    assert(0 <= j < k + 1 && e@[j] == x);
                }
                if r@.contains(x) && x == t {
                    assert(e@[k as int] == x);
                }
                if (exists|j: int| 0 <= j < k + 1 && e@[j] == x) && x.0 != s && x.2 != s {
                    if x == t {
                        assert(r@[r@.len() - 1] == x);
                    } else {
                        let j = choose|j: int| 0 <= j < k + 1 && e@[j] == x;
                        assert(j < k);
                        assert(old_r.contains(x));
                        let i = choose|i: int| 0 <= i < old_r.len() && old_r[i] == x;
                        assert(r@[i] == x);
                    }
                }
            }
            if e@.no_duplicates() && t.0 != s && t.2 != s {
                assert(!old_r.contains(t)) by {
                    if old_r.contains(t) {
                        let j = choose|j: int| 0 <= j < k && e@[j] == t;
                        assert(e@[j] == e@[k as int]);
                    }
                }
                assert forall|i: int, j: int| 0 <= i < j < r@.len() implies r@[i] != r@[j] by {
                    if j == r@.len() - 1 {
                        assert(old_r[i] == r@[i]);
                    } else {
                        assert(old_r[i] == r@[i] && old_r[j] == r@[j]);
                    }
                }
            }
        }
        k = k + 1;
    }
    proof {
        assert forall|t: (u32, char, u32)| e@.contains(t) implies (exists|j: int|
            0 <= j < k && e@[j] == t) by {
            let j = choose|j: int| 0 <= j < e@.len() && e@[j] == t;
        }
    }
    r
}

/// The transitions of `e` on a symbol other than `c`, in order.
pub fn edges_avoiding_symbol(e: &Vec<(u32, char, u32)>, c: char) -> (r: Vec<(u32, char, u32)>)
    ensures
        forall|t: (u32, char, u32)| r@.contains(t) <==> (e@.contains(t) && t.1 != c),
        e@.no_duplicates() ==> r@.no_duplicates(),
        r@.len() <= e@.len(),
{
    let mut r: Vec<(u32, char, u32)> = Vec::new();
    let mut k: usize = 0;
    while k < e.len()
        invariant
            k <= e.len(),
            r@.len() <= k,
            forall|t: (u32, char, u32)|
                r@.contains(t) <==> (exists|j: int| 0 <= j < k && e@[j] == t) && t.1 != c,
            e@.no_duplicates() ==> r@.no_duplicates(),
        decreases e.len() - k,
    {
        let t = e[k];
        let ghost old_r = r@;
        if t.1 != c {
            r.push(t);
        }
        proof {
            assert forall|x: (u32, char, u32)|
                r@.contains(x) <==> (exists|j: int| 0 <= j < k + 1 && e@[j] == x) && x.1
                    != c by {
                if r@.contains(x) && x != t {
                    let i = choose|i: int| 0 <= i < r@.len() && r@[i] == x;
                    assert(old_r[i] == x);
                    assert(old_r.contains(x));
                    let j = choose|j: int| 0 <= j < k && e@[j] == x;
                    assert(0 <= j < k + 1 && e@[j] == x);
                }
                if r@.contains(x) && x == t {
                    assert(e@[k as int] == x);
                }
                if (exists|j: int| 0 <= j < k + 1 && e@[j] == x) && x.1 != c {
                    if x == t {
                        assert(r@[r@.len() - 1] == x);
                    } else {
                        let j = choose|j: int| 0 <= j < k + 1 && e@[j] == x;
                        assert(j < k);
                        assert(old_r.contains(x));
                        let i = choose|i: int| 0 <= i < old_r.len() && old_r[i] == x;
                        assert(r@[i] == x);
                    }
                }
            }
            if e@.no_duplicates() && t.1 != c {
                assert(!old_r.contains(t)) by {
                    if old_r.contains(t) {
                        let j = choose|j: int| 0 <= j < k && e@[j] == t;
                        assert(e@[j] == e@[k as int]);
                    }
                }
                assert forall|i: int, j: int| 0 <= i < j < r@.len() implies r@[i] != r@[j] by {
                    if j == r@.len() - 1 {
                        assert(old_r[i] == r@[i]);
                    } else {
                        assert(old_r[i] == r@[i] && old_r[j] == r@[j]);
                    }
                }
            }
        }
        k = k + 1;
    }
    proof {
        assert forall|t: (u32, char, u32)| e@.contains(t) implies (exists|j: int|
            0 <= j < k && e@[j] == t) by {
            let j = choose|j: int| 0 <= j < e@.len() && e@[j] == t;
        }
    }
    r
}

/// Inserts `x` into the increasing sequence `v` unless it is there already.
pub fn insert_sorted(v: &mut Vec<u32>, x: u32)
    requires
        sorted_strict(old(v)@),
    ensures
        sorted_strict(final(v)@),
        forall|y: u32| final(v)@.contains(y) <==> (old(v)@.contains(y) || y == x),
{
    let mut i: usize = 0;
    while i < v.len() && v[i] < x
        invariant
            i <= v.len(),
            v@ == old(v)@,
            sorted_strict(old(v)@),
            forall|j: int| 0 <= j < i ==> v@[j] < x,
        decreases v.len() - i,
    {
        i = i + 1;
    }
    if i < v.len() && v[i] == x {
        return;
    }
    v.insert(i, x);
    proof {
        assert forall|a: int, b: int| 0 <= a < b < v@.len() implies v@[a] < v@[b] by {
            if b < i {
                assert(v@[a] == old(v)@[a] && v@[b] == old(v)@[b]);
            } else if b == i {
                assert(v@[a] == old(v)@[a]);
            } else if a == i {
                assert(v@[b] == old(v)@[b - 1]);
            } else if a < i {
                assert(v@[a] == old(v)@[a] && v@[b] == old(v)@[b - 1]);
            } else {
                assert(v@[a] == old(v)@[a - 1] && v@[b] == old(v)@[b - 1]);
            }
        }
        assert forall|y: u32| v@.contains(y) <==> (old(v)@.contains(y) || y == x) by {
            if v@.contains(y) {
                let k = choose|k: int| 0 <= k < v@.len() && v@[k] == y;
                if k < i {
                    assert(old(v)@[k] == y);
                } else if k > i {
                    assert(old(v)@[k - 1] == y);
                }
            }
            if old(v)@.contains(y) {
                let k = choose|k: int| 0 <= k < old(v)@.len() && old(v)@[k] == y;
                if k < i {
                    assert(v@[k] == y);
                } else {
                    assert(v@[k + 1] == y);
                }
            }
            if y == x {
                assert(v@[i as int] == y);
            }
        }
    }
}

/// Removes `x` from the increasing sequence `v` if it is there.
pub fn remove_sorted(v: &mut Vec<u32>, x: u32)
    requires
        sorted_strict(old(v)@),
    ensures
        sorted_strict(final(v)@),
        forall|y: u32| final(v)@.contains(y) <==> (old(v)@.contains(y) && y != x),
{
    let mut i: usize = 0;
    while i < v.len()
        invariant
            i <= v.len(),
            v@ == old(v)@,
            sorted_strict(old(v)@),
            forall|j: int| 0 <= j < i ==> v@[j] != x,
        decreases v.len() - i,
    {
        if v[i] == x {
            v.remove(i);
            proof {
                assert forall|a: int, b: int| 0 <= a < b < v@.len() implies v@[a] < v@[b] by {
                    if b < i {
                        assert(v@[a] == old(v)@[a] && v@[b] == old(v)@[b]);
                    } else if a < i {
                        assert(v@[a] == old(v)@[a] && v@[b] == old(v)@[b + 1]);
                    } else {
                        assert(v@[a] == old(v)@[a + 1] && v@[b] == old(v)@[b + 1]);
                    }
                }
                assert forall|y: u32| v@.contains(y) <==> (old(v)@.contains(y) && y != x) by {
                    if v@.contains(y) {
                        let k = choose|k: int| 0 <= k < v@.len() && v@[k] == y;
                        if k < i {
                            assert(old(v)@[k] == y);
                        } else {
                            assert(old(v)@[k + 1] == y);
                        }
                    }
                    if old(v)@.contains(y) && y != x {
                        let k = choose|k: int| 0 <= k < old(v)@.len() && old(v)@[k] == y;
                        if k < i {
                            assert(v@[k] == y);
                        } else {
                            assert(k != i);
                            assert(v@[k - 1] == y);
                        }
                    }
                    if v@.contains(y) {
                        let k = choose|k: int| 0 <= k < v@.len() && v@[k] == y;
                        if k < i {
                            assert(old(v)@[k] == y);
                            assert(old(v)@[k] != old(v)@[i as int]);
                        } else {
                            assert(old(v)@[k + 1] == y);
                            assert(old(v)@[k + 1] != old(v)@[i as int]);
                        }
                    }
                }
            }
            return;
        }
        i = i + 1;
    }
}

} // verus!

verus! {

/// Whether `v` is strictly increasing.
pub fn is_sorted_strict(v: &Vec<u32>) -> (r: bool)
    ensures
        r == sorted_strict(v@),
{
    let mut i: usize = 1;
    while i < v.len()
        invariant
            1 <= i,
            forall|a: int, b: int| 0 <= a < b < i && b < v.len() ==> v@[a] < v@[b],
        decreases v.len() - i,
    {
        if v[i - 1] >= v[i] {
            return false;
        }
        proof {
            assert forall|a: int, b: int| 0 <= a < b < i + 1 && b < v.len() implies v@[a] < v@[b] by {
                if b == i && a < i - 1 {
                    assert(v@[a] < v@[i - 1]);
                }
            }
        }
        i = i + 1;
    }
    true
}

/// Whether `e` holds the transition `t`.
pub fn vec_contains_edge(e: &Vec<(u32, char, u32)>, t: (u32, char, u32)) -> (r: bool)
    ensures
        r == e@.contains(t),
{
    let mut i: usize = 0;
    while i < e.len()
        invariant
            i <= e.len(),
            forall|j: int| 0 <= j < i ==> e@[j] != t,
        decreases e.len() - i,
    {
        let x = e[i];
        if x.0 == t.0 && x.1 == t.1 && x.2 == t.2 {
            return true;
        }
        i = i + 1;
    }
    false
}

/// The numbers `0..n`.
pub fn range_vec(n: u32) -> (r: Vec<u32>)
    ensures
        r@ == Seq::new(n as nat, |i: int| i as u32),
{
    let mut r: Vec<u32> = Vec::new();
    let mut i: u32 = 0;
    while i < n
        invariant
            i <= n,
            r@ == Seq::new(i as nat, |k: int| k as u32),
        decreases n - i,
    {
        r.push(i);
        i = i + 1;
        assert(r@ =~= Seq::new(i as nat, |k: int| k as u32));
    }
    r
}

/// `s` without the symbol `c`, in order.
pub open spec fn without_symbol(s: Seq<char>, c: char) -> Seq<char> {
    s.filter(|x: char| x != c)
}

/// `v` without `c`, in order.
pub fn chars_without(v: &Vec<char>, c: char) -> (r: Vec<char>)
    ensures
        r@ == without_symbol(v@, c),
        forall|x: char| r@.contains(x) <==> (v@.contains(x) && x != c),
        v@.no_duplicates() ==> r@.no_duplicates(),
        v@.len() > 0 && v@[0] != c ==> r@.len() > 0 && r@[0] == v@[0],
{
    let mut r: Vec<char> = Vec::new();
    let mut i: usize = 0;
    while i < v.len()
        invariant
            i <= v.len(),
            r@ == without_symbol(v@.take(i as int), c),
            forall|x: char| r@.contains(x) <==> (v@.take(i as int).contains(x) && x != c),
            v@.no_duplicates() ==> r@.no_duplicates(),
            i > 0 && v@[0] != c ==> r@.len() > 0 && r@[0] == v@[0],
        decreases v.len() - i,
    {
        let ghost old_r = r@;
        proof {
            assert(v@.take(i as int + 1).drop_last() =~= v@.take(i as int));
            reveal_with_fuel(Seq::filter, 1);
        }
        if v[i] != c {
            r.push(v[i]);
        }
        proof {
            assert forall|x: char| r@.contains(x) <==> (v@.take(i as int + 1).contains(x) && x != c) by {
                if r@.contains(x) && x != v@[i as int] {
                    let k = choose|k: int| 0 <= k < r@.len() && r@[k] == x;
                    assert(old_r[k] == x);
                    assert(old_r.contains(x));
                    assert(v@.take(i as int).contains(x));
                    let j = choose|j: int| 0 <= j < i && v@.take(i as int)[j] == x;
                    assert(v@.take(i as int + 1)[j] == x);
                }
                if r@.contains(x) && x == v@[i as int] {
                    assert(v@.take(i as int + 1)[i as int] == x);
                }
                if v@.take(i as int + 1).contains(x) && x != c {
                    let j = choose|j: int| 0 <= j < i + 1 && #[trigger] v@.take(i as int + 1)[j] == x;
                    if j < i {
                        assert(v@.take(i as int)[j] == x);
                        assert(old_r.contains(x));
                        let k = choose|k: int| 0 <= k < old_r.len() && old_r[k] == x;
                        assert(r@[k] == x);
                    } else {
                        assert(r@[r@.len() - 1] == x);
                    }
                }
            }
            if v@.no_duplicates() && v@[i as int] != c {
                assert(!old_r.contains(v@[i as int])) by {
                    if old_r.contains(v@[i as int]) {
                        let j = choose|j: int| 0 <= j < i && v@.take(i as int)[j] == v@[i as int];
                        assert(v@[j] == v@[i as int]);
                    }
                }
                assert forall|a: int, b: int| 0 <= a < b < r@.len() implies r@[a] != r@[b] by {
                    if b == r@.len() - 1 {
                        assert(old_r[a] == r@[a]);
                        assert(old_r.contains(r@[a]));
                    } else {
                        assert(old_r[a] == r@[a] && old_r[b] == r@[b]);
                    }
                }
            }
        }
        i = i + 1;
    }
    assert(v@.take(v.len() as int) =~= v@);
    r
}

} // verus!

verus! {

/// The epsilon closure of a state: the least set holding `state` that no
/// empty-word transition leaves, in increasing order.
pub fn state_epsilon_clojure(nfa: &Nfa, state: u32) -> (r: Vec<u32>)
    requires
        nfa.wf(),
        state < nfa.num_states,
    ensures
        sorted_strict(r@),
        is_eps_closure(nfa, set![state], r@.to_set()),
{
    let n = nfa.num_states;
    let mut marks = unmarked(n);
    marks.set(state as usize, true);
    let mut order: Vec<u32> = Vec::new();
    order.push(state);
    let mut head: usize = 0;
    proof {
        assert forall|d: u32| d < n implies (marks@[d as int] <==> order@.contains(d)) by {
            if d == state {
                assert(order@[0] == d);
            }
        }
    }
    while head < order.len()
        invariant
            nfa.wf(),
            n == nfa.num_states,
            marks.len() == n,
            head <= order.len(),
            order@.no_duplicates(),
            forall|k: int| 0 <= k < order.len() ==> #[trigger] order@[k] < n,
            forall|d: u32| d < n ==> (marks@[d as int] <==> order@.contains(d)),
            order@[0] == state,
            order.len() >= 1,
            forall|k: int, d: u32|
                0 <= k < head && #[trigger] nfa.has_edge(order@[k], EMPTY_STRING, d) ==> marks@[d as int],
            forall|t: Set<u32>, k: int|
                t.contains(state) && eps_closed(nfa, t) && 0 <= k < order.len() ==> #[trigger] t.contains(order@[k]),
        decreases n - head,
    {
        proof {
            lemma_distinct_below(order@, n);
        }
        let cur = order[head];
        let mut e: usize = 0;
        while e < nfa.transitions.len()
            invariant
                nfa.wf(),
                n == nfa.num_states,
                marks.len() == n,
                head < order.len(),
                cur == order@[head as int],
                order@.no_duplicates(),
                forall|k: int| 0 <= k < order.len() ==> #[trigger] order@[k] < n,
                forall|d: u32| d < n ==> (marks@[d as int] <==> order@.contains(d)),
                order@[0] == state,
                forall|k: int, d: u32|
                    0 <= k < head && #[trigger] nfa.has_edge(order@[k], EMPTY_STRING, d) ==> marks@[d as int],
                forall|j: int| 0 <= j < e && (#[trigger] nfa.transitions@[j]).0 == cur && nfa.transitions@[j].1
                    == EMPTY_STRING ==> marks@[nfa.transitions@[j].2 as int],
                forall|t: Set<u32>, k: int|
                    t.contains(state) && eps_closed(nfa, t) && 0 <= k < order.len() ==> #[trigger] t.contains(order@[k]),
                e <= nfa.transitions.len(),
            decreases nfa.transitions.len() - e,
        {
            let t = nfa.transitions[e];
            assert(nfa.transitions@[e as int] == t);
            if t.0 == cur && t.1 == EMPTY_STRING && !marks[t.2 as usize] {
                let ghost old_order = order@;
                marks.set(t.2 as usize, true);
                order.push(t.2);
                proof {
                    assert(order@[order.len() - 1] == t.2);
                    assert forall|d: u32| d < n implies (marks@[d as int] <==> order@.contains(d)) by {
                        if d != t.2 && order@.contains(d) {
                            let k = choose|k: int| 0 <= k < order.len() && order@[k] == d;
                            assert(old_order[k] == d);
                        }
                        if d != t.2 && old_order.contains(d) {
                            let k = choose|k: int| 0 <= k < old_order.len() && old_order[k] == d;
                            assert(order@[k] == d);
                        }
                    }
                    assert forall|a: int, b: int| 0 <= a < b < order.len() implies order@[a] != order@[b] by {
                        if b == order.len() - 1 {
                            assert(old_order.contains(order@[a]));
                        } else {
                            assert(old_order[a] == order@[a] && old_order[b] == order@[b]);
                        }
                    }
                    assert forall|tt: Set<u32>, k: int|
                        tt.contains(state) && eps_closed(nfa, tt) && 0 <= k < order.len() implies #[trigger] tt.contains(order@[k]) by {
                        if k == order.len() - 1 {
                            assert(tt.contains(old_order[head as int]));
                            assert(nfa.has_edge(cur, EMPTY_STRING, t.2));
                        } else {
                            assert(tt.contains(old_order[k]));
                        }
                    }
                }
            }
            e = e + 1;
        }
        proof {
            assert forall|k: int, d: u32|
                0 <= k < head + 1 && #[trigger] nfa.has_edge(order@[k], EMPTY_STRING, d) implies marks@[d as int] by {
                if k == head {
                    let j = choose|j: int| 0 <= j < nfa.transitions@.len() && nfa.transitions@[j] == (order@[k], EMPTY_STRING, d);
                }
            }
        }
        head = head + 1;
    }
    let r = marked_values(&marks);
    proof {
        let c = r@.to_set();
        assert forall|d: u32| c.contains(d) <==> order@.contains(d) by {
            if order@.contains(d) {
                let k = choose|k: int| 0 <= k < order.len() && order@[k] == d;
                assert(order@[k] < n);
            }
        }
        assert(set![state].subset_of(c)) by {
            assert(order@[0] == state);
            assert(order@.contains(state));
        }
        assert forall|p: u32, d: u32| c.contains(p) && nfa.has_edge(p, EMPTY_STRING, d) implies c.contains(d) by {
            let k = choose|k: int| 0 <= k < order.len() && order@[k] == p;
            assert(nfa.has_edge(order@[k], EMPTY_STRING, d));
            let j = choose|j: int| 0 <= j < nfa.transitions@.len() && nfa.transitions@[j] == (p, EMPTY_STRING, d);
            assert(nfa.transitions@[j].2 < n);
        }
        assert forall|t: Set<u32>| set![state].subset_of(t) && eps_closed(nfa, t) implies #[trigger] c.subset_of(t) by {
            assert(t.contains(state));
            assert forall|d: u32| c.contains(d) implies t.contains(d) by {
                let k = choose|k: int| 0 <= k < order.len() && order@[k] == d;
                assert(t.contains(order@[k]));
            }
        }
    }
    r
}

} // verus!

verus! {

/// The epsilon closure of a set of states, in increasing order: the union of
/// the closures of its members.
pub fn set_epsilon_clojure(nfa: &Nfa, set: &[u32]) -> (r: Vec<u32>)
    requires
        nfa.wf(),
        forall|i: int| 0 <= i < set@.len() ==> #[trigger] set@[i] < nfa.num_states,
    ensures
        sorted_strict(r@),
        is_eps_closure(nfa, set@.to_set(), r@.to_set()),
{
    let n = nfa.num_states;
    let mut marks = unmarked(n);
    let mut i: usize = 0;
    while i < set.len()
        invariant
            nfa.wf(),
            n == nfa.num_states,
            marks.len() == n,
            i <= set@.len(),
            forall|k: int| 0 <= k < set@.len() ==> #[trigger] set@[k] < nfa.num_states,
            forall|k: int| 0 <= k < i ==> marks@[#[trigger] set@[k] as int],
            forall|p: u32, d: u32|
                p < n && marks@[p as int] && #[trigger] nfa.has_edge(p, EMPTY_STRING, d) ==> marks@[d as int],
            forall|t: Set<u32>, d: u32|
                #![trigger t.contains(d), marks@[d as int]]
                (forall|k: int| 0 <= k < i ==> t.contains(#[trigger] set@[k])) && eps_closed(nfa, t) && d < n
                    && marks@[d as int] ==> t.contains(d),
        decreases set@.len() - i,
    {
        let q = set[i];
        let c = state_epsilon_clojure(nfa, q);
        let ghost before = marks@;
        let mut j: usize = 0;
        while j < c.len()
            invariant
                nfa.wf(),
                n == nfa.num_states,
                marks.len() == n,
                j <= c.len(),
                before.len() == n,
                q < n,
                is_eps_closure(nfa, set![q], c@.to_set()),
                forall|k: int| 0 <= k < c.len() ==> c@.to_set().contains(#[trigger] c@[k]),
                forall|d: u32| #![trigger marks@[d as int]] d < n ==> (marks@[d as int] <==> (before[d as int] || exists|k: int|
                    0 <= k < j && #[trigger] c@[k] == d)),
            decreases c.len() - j,
        {
            let d = c[j];
            proof {
                assert(c@.to_set().contains(d));
                assert(set![q].subset_of(c@.to_set()));
            }
            assert(d < n) by {
                let tn = Set::<u32>::new(|x: u32| x < n);
                assert(set![q].subset_of(tn));
                assert forall|p: u32, x: u32| tn.contains(p) && nfa.has_edge(p, EMPTY_STRING, x) implies tn.contains(x) by {
                    let jj = choose|jj: int| 0 <= jj < nfa.transitions@.len() && nfa.transitions@[jj] == (p, EMPTY_STRING, x);
                    assert(nfa.transitions@[jj].2 < n);
                }
                assert(c@.to_set().subset_of(tn));
            }
            let ghost prev = marks@;
            marks.set(d as usize, true);
            proof {
                assert forall|x: u32| x < n implies (marks@[x as int] <==> (before[x as int] || exists|k: int|
                    0 <= k < j + 1 && #[trigger] c@[k] == x)) by {
                    if x == d {
                        assert(c@[j as int] == x);
                    } else {
                        assert(marks@[x as int] == prev[x as int]);
                        if exists|k: int| 0 <= k < j + 1 && #[trigger] c@[k] == x {
                            let k = choose|k: int| 0 <= k < j + 1 && #[trigger] c@[k] == x;
                            assert(k < j);
                            assert(exists|k2: int| 0 <= k2 < j && #[trigger] c@[k2] == x);
                        }
                        if exists|k: int| 0 <= k < j && #[trigger] c@[k] == x {
                            let k = choose|k: int| 0 <= k < j && #[trigger] c@[k] == x;
                            assert(0 <= k < j + 1 && c@[k] == x);
                        }
                    }
                }
            }
            j = j + 1;
        }
        proof {
            let cs = c@.to_set();
            assert forall|d: u32| d < n implies (marks@[d as int] <==> (before[d as int] || cs.contains(d))) by {
                if cs.contains(d) {
                    let k = choose|k: int| 0 <= k < c.len() && c@[k] == d;
                    assert(c@[k] == d);
                }
            }
            assert(cs.contains(q)) by {
                assert(set![q].subset_of(cs));
            }
            assert forall|k: int| 0 <= k < i + 1 implies marks@[#[trigger] set@[k] as int] by {
                if k < i {
                    assert(before[set@[k] as int]);
                }
            }
            assert forall|p: u32, d: u32|
                p < n && marks@[p as int] && #[trigger] nfa.has_edge(p, EMPTY_STRING, d) implies marks@[d as int] by {
                let jj = choose|jj: int| 0 <= jj < nfa.transitions@.len() && nfa.transitions@[jj] == (p, EMPTY_STRING, d);
                assert(nfa.transitions@[jj].2 < n);
                if before[p as int] {
                } else {
                    assert(cs.contains(p));
                    assert(cs.contains(d));
                }
            }
            assert forall|t: Set<u32>, d: u32|
                (forall|k: int| 0 <= k < i + 1 ==> t.contains(#[trigger] set@[k])) && eps_closed(nfa, t) && d < n
                    && #[trigger] marks@[d as int] implies #[trigger] t.contains(d) by {
                assert forall|k: int| 0 <= k < i implies t.contains(#[trigger] set@[k]) by {
                    assert(t.contains(set@[k]));
                }
                if before[d as int] {
                } else {
                    assert(t.contains(set@[i as int]));
                    assert(set![q].subset_of(t));
                    assert(cs.subset_of(t));
                }
            }
        }
        i = i + 1;
    }
    let r = marked_values(&marks);
    proof {
        let c = r@.to_set();
        let st = set@.to_set();
        assert forall|d: u32| st.contains(d) implies c.contains(d) by {
            let k = choose|k: int| 0 <= k < set@.len() && set@[k] == d;
            assert(marks@[set@[k] as int]);
        }
        assert forall|p: u32, d: u32| c.contains(p) && nfa.has_edge(p, EMPTY_STRING, d) implies c.contains(d) by {
            let jj = choose|jj: int| 0 <= jj < nfa.transitions@.len() && nfa.transitions@[jj] == (p, EMPTY_STRING, d);
            assert(nfa.transitions@[jj].2 < n);
        }
        assert forall|t: Set<u32>| st.subset_of(t) && eps_closed(nfa, t) implies #[trigger] c.subset_of(t) by {
            assert forall|k: int| 0 <= k < set@.len() implies t.contains(#[trigger] set@[k]) by {
                assert(st.contains(set@[k]));
            }
            assert forall|d: u32| c.contains(d) implies t.contains(d) by {
                assert(marks@[d as int]);
            }
        }
    }
    r
}

/// The states reached from a member of `set` by one transition on `symbol`,
/// in increasing order.
pub fn set_transitions(nfa: &Nfa, set: &[u32], symbol: char) -> (r: Vec<u32>)
    requires
        nfa.wf(),
    ensures
        sorted_strict(r@),
        r@.to_set() == move_set(nfa, set@.to_set(), symbol),
{
    let n = nfa.num_states;
    let mut marks = unmarked(n);
    let mut i: usize = 0;
    while i < set.len()
        invariant
            nfa.wf(),
            n == nfa.num_states,
            marks.len() == n,
            i <= set@.len(),
            forall|d: u32| #![trigger marks@[d as int]] d < n ==> (marks@[d as int] <==> exists|k: int|
                0 <= k < i && #[trigger] nfa.has_edge(set@[k], symbol, d)),
        decreases set@.len() - i,
    {
        let q = set[i];
        let ghost before = marks@;
        let mut e: usize = 0;
        while e < nfa.transitions.len()
            invariant
                nfa.wf(),
                n == nfa.num_states,
                marks.len() == n,
                e <= nfa.transitions.len(),
                before.len() == n,
                i < set@.len(),
                q == set@[i as int],
                forall|d: u32| #![trigger marks@[d as int]] d < n ==> (marks@[d as int] <==> (before[d as int] || exists|j: int|
                    0 <= j < e && #[trigger] nfa.transitions@[j] == (q, symbol, d))),
            decreases nfa.transitions.len() - e,
        {
            let t = nfa.transitions[e];
            assert(nfa.transitions@[e as int] == t);
            let ghost prev = marks@;
            if t.0 == q && t.1 == symbol {
                marks.set(t.2 as usize, true);
            }
            proof {
                assert forall|d: u32| d < n implies (marks@[d as int] <==> (before[d as int] || exists|j: int|
                    0 <= j < e + 1 && #[trigger] nfa.transitions@[j] == (q, symbol, d))) by {
                    if t == (q, symbol, d) {
                        assert(nfa.transitions@[e as int] == (q, symbol, d));
                    } else {
                        assert(marks@[d as int] == prev[d as int]);
                        assert(prev[d as int] <==> (before[d as int] || exists|j: int|
                            0 <= j < e && #[trigger] nfa.transitions@[j] == (q, symbol, d)));
                        if exists|j: int| 0 <= j < e + 1 && #[trigger] nfa.transitions@[j] == (q, symbol, d) {
                            let j = choose|j: int| 0 <= j < e + 1 && #[trigger] nfa.transitions@[j] == (q, symbol, d);
                            assert(j < e);
                            assert(exists|j2: int| 0 <= j2 < e && #[trigger] nfa.transitions@[j2] == (q, symbol, d));
                        }
                        if exists|j: int| 0 <= j < e && #[trigger] nfa.transitions@[j] == (q, symbol, d) {
                            let j = choose|j: int| 0 <= j < e && #[trigger] nfa.transitions@[j] == (q, symbol, d);
                            assert(0 <= j < e + 1 && nfa.transitions@[j] == (q, symbol, d));
                        }
                    }
                }
            }
            e = e + 1;
        }
        proof {
            assert forall|d: u32| d < n implies (marks@[d as int] <==> exists|k: int|
                0 <= k < i + 1 && #[trigger] nfa.has_edge(set@[k], symbol, d)) by {
                if marks@[d as int] && !before[d as int] {
                    let j = choose|j: int| 0 <= j < e && #[trigger] nfa.transitions@[j] == (q, symbol, d);
                    assert(nfa.has_edge(set@[i as int], symbol, d));
                }
                if exists|k: int| 0 <= k < i + 1 && #[trigger] nfa.has_edge(set@[k], symbol, d) {
                    let k = choose|k: int| 0 <= k < i + 1 && #[trigger] nfa.has_edge(set@[k], symbol, d);
                    if k == i {
                        let j = choose|j: int| 0 <= j < nfa.transitions@.len() && nfa.transitions@[j] == (q, symbol, d);
                    } else {
                        assert(before[d as int]);
                    }
                }
            }
        }
        i = i + 1;
    }
    let r = marked_values(&marks);
    proof {
        let ms = move_set(nfa, set@.to_set(), symbol);
        assert forall|d: u32| r@.to_set().contains(d) <==> ms.contains(d) by {
            if ms.contains(d) {
                let q = choose|q: u32| set@.to_set().contains(q) && #[trigger] nfa.has_edge(q, symbol, d);
                let k = choose|k: int| 0 <= k < set@.len() && set@[k] == q;
                let j = choose|j: int| 0 <= j < nfa.transitions@.len() && nfa.transitions@[j] == (q, symbol, d);
                assert(nfa.transitions@[j].2 < n);
                assert(nfa.has_edge(set@[k], symbol, d));
            }
            if r@.to_set().contains(d) {
                let k = choose|k: int| 0 <= k < i && #[trigger] nfa.has_edge(set@[k], symbol, d);
                assert(set@.to_set().contains(set@[k]));
            }
        }
        assert(r@.to_set() =~= ms);
    }
    r
}

} // verus!

verus! {

/// Relies on `String`'s `FromIterator<char>`: the string holds the given
/// characters, in order.
#[verifier::external_body]
pub(crate) fn string_from_chars(v: &Vec<char>) -> (r: String)
    ensures
        r@ == v@,
{
    v.iter().collect()
}

} // verus!

verus! {

/// The pairs `(i, j)` with `from <= i < j <= n`, in lexicographic order.
pub open spec fn pairs_from(from: int, n: int) -> Seq<(usize, usize)>
    decreases n - from,
{
    if from >= n || from < 0 {
        Seq::empty()
    } else {
        Seq::new((n - from) as nat, |k: int| (from as usize, (from + 1 + k) as usize)) + pairs_from(
            from + 1,
            n,
        )
    }
}

/// Relies on itertools' `tuple_combinations`: on `0..=n` it yields every pair
/// `(i, j)` of positions `i < j`, in lexicographic order.
#[verifier::external_body]
#[allow(deprecated)]
fn index_pairs(n: usize) -> (r: Vec<(usize, usize)>)
    requires
        n < usize::MAX,
    ensures
        r@ == pairs_from(0, n as int),
{
    (0..=n).tuple_combinations().collect()
}

/// The numbers from `lo` up to but not including `hi`.
pub open spec fn span(lo: usize, hi: usize) -> Seq<u32> {
    Seq::new((hi - lo) as nat, |k: int| (lo + k) as u32)
}

/// Generates the contiguous runs `start..end` of the positions of `set`,
/// for every `start < end <= set.len()`, in lexicographic order of
/// `(start, end)`.
pub fn create_power_set(set: &[u32]) -> (r: Vec<Vec<u32>>)
    requires
        set@.len() < u32::MAX,
    ensures
        r@.len() == pairs_from(0, set@.len() as int).len(),
        forall|k: int|
            0 <= k < r@.len() ==> (#[trigger] r@[k])@ == span(
                pairs_from(0, set@.len() as int)[k].0,
                pairs_from(0, set@.len() as int)[k].1,
            ),
{
    let pairs = index_pairs(set.len());
    proof {
        lemma_pairs_bounds(0, set@.len() as int);
    }
    let mut powerset: Vec<Vec<u32>> = Vec::new();
    let mut k: usize = 0;
    while k < pairs.len()
        invariant
            set@.len() <= u32::MAX,
            pairs@ == pairs_from(0, set@.len() as int),
            forall|x: int| 0 <= x < pairs@.len() ==> #[trigger] pairs@[x].0 < pairs@[x].1 <= set@.len(),
            k <= pairs.len(),
            powerset@.len() == k,
            forall|x: int| 0 <= x < k ==> (#[trigger] powerset@[x])@ == span(pairs@[x].0, pairs@[x].1),
        decreases pairs.len() - k,
    {
        let (start, end) = pairs[k];
        assert(pairs@[k as int].0 < pairs@[k as int].1 <= set@.len());
        let mut run: Vec<u32> = Vec::new();
        let mut v = start;
        while v < end
            invariant
                start <= v <= end <= set@.len() <= u32::MAX,
                run@ == span(start, v),
            decreases end - v,
        {
            run.push(v as u32);
            v = v + 1;
            assert(run@ =~= span(start, v));
        }
        powerset.push(run);
        k = k + 1;
    }
    powerset
}

proof fn lemma_pairs_bounds(from: int, n: int)
    requires
        0 <= from,
        n <= u32::MAX,
    ensures
        forall|x: int|
            0 <= x < pairs_from(from, n).len() ==> from <= #[trigger] pairs_from(from, n)[x].0 < pairs_from(from, n)[x].1 <= n,
    decreases n - from,
{
    if from < n {
        lemma_pairs_bounds(from + 1, n);
        let head = Seq::new((n - from) as nat, |k: int| (from as usize, (from + 1 + k) as usize));
        assert forall|x: int| 0 <= x < pairs_from(from, n).len() implies from <= #[trigger] pairs_from(from, n)[x].0 < pairs_from(from, n)[x].1 <= n by {
            if x < head.len() {
                assert(pairs_from(from, n)[x] == head[x]);
                assert(head[x] == (from as usize, (from + 1 + x) as usize));
            } else {
                assert(pairs_from(from, n)[x] == pairs_from(from + 1, n)[x - head.len()]);
            }
        }
    }
}

} // verus!

use crate::dfa::{keys_unique, Dfa};
use crate::language::Error;
use crate::util::sorted_strict;
use vstd::prelude::*;

verus! {

impl Dfa {
    /// The target of the transition from `q` on `a` (meaningful where there is one).
    pub open spec fn target(&self, q: u32, a: char) -> u32 {
        choose|d: u32| self.has_edge(q, a, d)
    }

    /// The targets of `p` and `q` lie in the same block, symbol by symbol.
    pub open spec fn agree(&self, block_of: Seq<u32>, p: u32, q: u32) -> bool {
        forall|a: char|
            #[trigger] self.alphabet@.contains(a) ==> block_of[self.target(p, a) as int]
                == block_of[self.target(q, a) as int]
    }

    /// `p` and `q` lie in the same block of `block_of`, and so do their
    /// targets on every symbol: the n-equivalence of partition refinement.
    pub open spec fn equiv_under(&self, block_of: Seq<u32>, p: u32, q: u32) -> bool {
        &&& block_of[p as int] == block_of[q as int]
        &&& self.agree(block_of, p, q)
    }

    /// Every state has a block below `reps.len()`, and `reps[b]` is a member of block `b`.
    pub open spec fn is_partition(&self, block_of: Seq<u32>, reps: Seq<u32>) -> bool {
        &&& block_of.len() == self.num_states
        &&& 1 <= reps.len() <= self.num_states
        &&& forall|q: int| 0 <= q < self.num_states ==> #[trigger] block_of[q] < reps.len()
        &&& forall|b: int|
            0 <= b < reps.len() ==> #[trigger] reps[b] < self.num_states && block_of[reps[b] as int]
                == b
    }

    /// States of one block agree on acceptance.
    pub open spec fn respects_accept(&self, block_of: Seq<u32>) -> bool {
        forall|p: u32, q: u32|
            p < self.num_states && q < self.num_states && #[trigger] block_of[p as int]
                == #[trigger] block_of[q as int] ==> (self.is_accept(p) <==> self.is_accept(q))
    }

    /// States of one block have their targets in one block, symbol by symbol.
    pub open spec fn is_stable(&self, block_of: Seq<u32>) -> bool {
        forall|p: u32, q: u32|
            p < self.num_states && q < self.num_states && #[trigger] block_of[p as int]
                == #[trigger] block_of[q as int] ==> self.equiv_under(block_of, p, q)
    }

    /// `p` and `q` give the same outcome on every word.
    pub open spec fn same_language(&self, p: u32, q: u32) -> bool {
        forall|s: Seq<char>| #[trigger] self.run_from(p, s) == self.run_from(q, s)
    }

    /// No two distinct states give the same outcome on every word.
    pub open spec fn is_minimal(&self) -> bool {
        forall|p: u32, q: u32|
            p < self.num_states && q < self.num_states && p != q ==> !#[trigger] self.same_language(p, q)
    }

    /// States with the same outcome on every word share a block.
    pub open spec fn respects_language(&self, block_of: Seq<u32>) -> bool {
        forall|p: u32, q: u32|
            p < self.num_states && q < self.num_states && #[trigger] self.same_language(p, q) ==> block_of[p as int]
                == block_of[q as int]
    }

    /// States with the same outcome on every word agree on acceptance, and so
    /// do their targets on every symbol.
    pub proof fn lemma_same_language_step(&self, p: u32, q: u32)
        requires
            self.wf(),
            self.complete(),
            p < self.num_states,
            q < self.num_states,
            self.same_language(p, q),
        ensures
            self.is_accept(p) == self.is_accept(q),
            forall|a: char| #[trigger] self.alphabet@.contains(a) ==> self.same_language(self.target(p, a), self.target(q, a)),
    {
        assert(self.run_from(p, Seq::empty()) == self.run_from(q, Seq::empty()));
        assert forall|a: char| #[trigger] self.alphabet@.contains(a) implies self.same_language(self.target(p, a), self.target(q, a)) by {
            self.lemma_complete_target(p, a);
            self.lemma_complete_target(q, a);
            assert forall|s: Seq<char>| #[trigger] self.run_from(self.target(p, a), s) == self.run_from(self.target(q, a), s) by {
                let w = seq![a] + s;
                assert(w[0] == a);
                assert(w.drop_first() =~= s);
                assert(self.run_from(p, w) == self.run_from(q, w));
            }
        }
    }

    pub proof fn lemma_target(&self, q: u32, a: char, d: u32)
        requires
            self.wf(),
            self.has_edge(q, a, d),
        ensures
            self.target(q, a) == d,
            self.step(q, a) == Some(d),
            d < self.num_states,
    {
        let e = self.target(q, a);
        assert(self.has_edge(q, a, e));
        let i = choose|i: int| 0 <= i < self.transitions@.len() && self.transitions@[i] == (q, a, d);
        let j = choose|j: int| 0 <= j < self.transitions@.len() && self.transitions@[j] == (q, a, e);
        assert(self.transitions@[i].0 == self.transitions@[j].0);
    }

    pub proof fn lemma_complete_target(&self, q: u32, a: char)
        requires
            self.wf(),
            self.complete(),
            q < self.num_states,
            self.alphabet@.contains(a),
        ensures
            self.has_edge(q, a, self.target(q, a)),
            self.step(q, a) == Some(self.target(q, a)),
            self.target(q, a) < self.num_states,
    {
        assert(self.has_key(q, a));
        let d = choose|d: u32| self.has_edge(q, a, d);
        self.lemma_target(q, a, d);
    }

    /// Whether the targets of `p` and `q` lie in the same blocks, symbol by symbol.
    fn same_images(&self, block_of: &Vec<u32>, p: u32, q: u32) -> (r: bool)
        requires
            self.wf(),
            self.complete(),
            p < self.num_states,
            q < self.num_states,
            block_of.len() == self.num_states,
        ensures
            r == self.agree(block_of@, p, q),
    {
        let mut k: usize = 0;
        while k < self.alphabet.len()
            invariant
                self.wf(),
                self.complete(),
                p < self.num_states,
                q < self.num_states,
                block_of.len() == self.num_states,
                k <= self.alphabet.len(),
                forall|j: int|
                    0 <= j < k ==> block_of@[self.target(p, #[trigger] self.alphabet@[j]) as int]
                        == block_of@[self.target(q, self.alphabet@[j]) as int],
            decreases self.alphabet.len() - k,
        {
            let a = self.alphabet[k];
            proof {
                self.lemma_complete_target(p, a);
                self.lemma_complete_target(q, a);
            }
            let dp = match self.get_transition((p, a)) {
                Some(d) => d,
                None => {
                    return false;
                },
            };
            let dq = match self.get_transition((q, a)) {
                Some(d) => d,
                None => {
                    return false;
                },
            };
            if block_of[dp as usize] != block_of[dq as usize] {
                return false;
            }
            k = k + 1;
        }
        proof {
            assert forall|a: char| #[trigger] self.alphabet@.contains(a) implies block_of@[self.target(p, a) as int]
                == block_of@[self.target(q, a) as int] by {
                let j = choose|j: int| 0 <= j < self.alphabet@.len() && self.alphabet@[j] == a;
                assert(block_of@[self.target(p, self.alphabet@[j]) as int] == block_of@[self.target(q, self.alphabet@[j]) as int]);
            }
        }
        true
    }
}


/// A list of `n` zeros.
fn zeros(n: u32) -> (r: Vec<u32>)
    ensures
        r.len() == n,
        forall|i: int| 0 <= i < n ==> r@[i] == 0,
{
    let mut r: Vec<u32> = Vec::new();
    let mut i: u32 = 0;
    while i < n
        invariant
            i <= n,
            r.len() == i,
            forall|k: int| 0 <= k < i ==> r@[k] == 0,
        decreases n - i,
    {
        r.push(0);
        i = i + 1;
    }
    r
}

impl Dfa {
    /// One round of refinement. Blocks are walked in order and the states of
    /// each in increasing order; a state joins the first block made from the
    /// same old block whose first member it is n-equivalent to, or starts a
    /// new one. The flag tells whether no block was split, in which case the
    /// partition is returned unchanged.
    fn refine(&self, block_of: &Vec<u32>, reps: &Vec<u32>) -> (res: (Vec<u32>, Vec<u32>, bool))
        requires
            self.wf(),
            self.complete(),
            self.is_partition(block_of@, reps@),
            block_of@[0] == 0,
        ensures
            self.is_partition(res.0@, res.1@),
            res.0@[0] == 0,
            forall|q: u32|
                q < self.num_states ==> #[trigger] block_of@[res.1@[res.0@[q as int] as int] as int]
                    == block_of@[q as int] && self.agree(block_of@, res.1@[res.0@[q as int] as int], q),
            res.2 ==> res.0@ == block_of@,
            !res.2 ==> res.1.len() > reps.len(),
            res.1.len() >= reps.len(),
            forall|p: u32, q: u32|
                p < self.num_states && q < self.num_states && block_of@[p as int] == block_of@[q as int]
                    && #[trigger] self.agree(block_of@, p, q) ==> res.0@[p as int] == res.0@[q as int],
    {
        let n = self.num_states;
        let mut nb = zeros(n);
        let mut nr: Vec<u32> = Vec::new();
        let mut done = true;
        let mut b: usize = 0;
        while b < reps.len()
            invariant
                self.wf(),
                self.complete(),
                n == self.num_states,
                self.is_partition(block_of@, reps@),
                block_of@[0] == 0,
                b <= reps.len(),
                nb.len() == n,
                nr.len() <= n,
                forall|j: int| 0 <= j < nr.len() ==> #[trigger] nr@[j] < n && block_of@[nr@[j] as int] < b && nb@[nr@[j] as int] == j,
                forall|x: u32|
                    x < n && #[trigger] block_of@[x as int] < b ==> nb@[x as int] < nr.len()
                        && block_of@[nr@[nb@[x as int] as int] as int] == block_of@[x as int]
                        && self.agree(block_of@, nr@[nb@[x as int] as int], x),
                nr.len() >= b,
                done ==> nr.len() == b && forall|x: u32|
                    x < n && #[trigger] block_of@[x as int] < b ==> nb@[x as int] == block_of@[x as int],
                !done ==> nr.len() >= b + 1,
                b >= 1 ==> nb@[0] == 0,
                forall|j1: int, j2: int|
                    0 <= j1 < nr.len() && 0 <= j2 < nr.len() && j1 != j2 && block_of@[nr@[j1] as int]
                        == block_of@[nr@[j2] as int] ==> !#[trigger] self.agree(block_of@, nr@[j1], nr@[j2]),
            decreases reps.len() - b,
        {
            let first_new = nr.len();
            let mut q: u32 = 0;
            while q < n
                invariant
                    self.wf(),
                    self.complete(),
                    n == self.num_states,
                    self.is_partition(block_of@, reps@),
                    block_of@[0] == 0,
                    b < reps.len(),
                    q <= n,
                    nb.len() == n,
                    nr.len() <= n,
                    first_new >= b,
                    first_new <= nr.len(),
                    forall|j: int| 0 <= j < nr.len() ==> #[trigger] nr@[j] < n && block_of@[nr@[j] as int] <= b && nb@[nr@[j] as int] == j,
                    forall|j: int| 0 <= j < first_new ==> block_of@[#[trigger] nr@[j] as int] < b,
                    forall|j: int| first_new <= j < nr.len() ==> block_of@[#[trigger] nr@[j] as int] == b && nr@[j] < q,
                    forall|x: u32|
                        x < n && (#[trigger] block_of@[x as int] < b || (block_of@[x as int] == b && x < q)) ==> nb@[x as int] < nr.len()
                            && block_of@[nr@[nb@[x as int] as int] as int] == block_of@[x as int]
                            && self.agree(block_of@, nr@[nb@[x as int] as int], x),
                    forall|x: u32| x < n && block_of@[x as int] == b && x < q ==> #[trigger] nb@[x as int] >= first_new,
                    (exists|x: u32| x < q && block_of@[x as int] == b) ==> nr.len() > first_new,
                    done ==> first_new == b && nr.len() <= b + 1 && forall|x: u32|
                        x < n && (#[trigger] block_of@[x as int] < b || (block_of@[x as int] == b && x < q)) ==> nb@[x as int] == block_of@[x as int],
                    !done ==> (first_new >= b + 1 || nr.len() >= first_new + 2),
                    (b >= 1 || q >= 1) ==> nb@[0] == 0,
                    forall|j1: int, j2: int|
                        0 <= j1 < nr.len() && 0 <= j2 < nr.len() && j1 != j2 && block_of@[nr@[j1] as int]
                            == block_of@[nr@[j2] as int] ==> !#[trigger] self.agree(block_of@, nr@[j1], nr@[j2]),
                decreases n - q,
            {
                proof {
                    if q == 0 {
                        if nr.len() > first_new {
                            assert(nr@[first_new as int] < q);
                        }
                        if b == 0 && first_new > 0 {
                            assert(block_of@[nr@[0] as int] < b);
                        }
                    }
                }
                if block_of[q as usize] as usize == b {
                    let mut j: usize = first_new;
                    let mut found = false;
                    while j < nr.len() && !found
                        invariant
                            self.wf(),
                            self.complete(),
                            n == self.num_states,
                            block_of.len() == n,
                            q < n,
                            first_new <= j <= nr.len(),
                            forall|y: int| 0 <= y < nr.len() ==> #[trigger] nr@[y] < n,
                            found ==> j < nr.len() && self.agree(block_of@, nr@[j as int], q),
                            !found ==> forall|y: int| first_new <= y < j ==> !#[trigger] self.agree(block_of@, nr@[y], q),
                        decreases nr.len() - j + if found { 0int } else { 1int },
                    {
                        if self.same_images(block_of, nr[j], q) {
                            found = true;
                        } else {
                            j = j + 1;
                        }
                    }
                    let ghost old_nb = nb@;
                    let ghost old_nr = nr@;
                    if found {
                        nb.set(q as usize, j as u32);
                    } else {
                        if nr.len() > first_new {
                            done = false;
                        }
                        assert(j == nr.len());
                        assert(forall|y: int| first_new <= y < old_nr.len() ==> !#[trigger] self.agree(block_of@, old_nr[y], q)) by {
                            assert forall|y: int| first_new <= y < old_nr.len() implies !#[trigger] self.agree(block_of@, old_nr[y], q) by {
                                assert(!self.agree(block_of@, nr@[y], q));
                            }
                        }
                        proof {
                            assert(!old_nr.contains(q)) by {
                                if old_nr.contains(q) {
                                    let y = choose|y: int| 0 <= y < old_nr.len() && old_nr[y] == q;
                                    if y < first_new {
                                    } else {
                                    }
                                }
                            }
                            assert forall|a: int, c: int| 0 <= a < c < old_nr.len() + 1 implies old_nr.push(q)[a] != old_nr.push(q)[c] by {
                                if c < old_nr.len() {
                                    assert(old_nb[old_nr[a] as int] == a);
                                    assert(old_nb[old_nr[c] as int] == c);
                                } else {
                                    assert(old_nr.contains(old_nr[a]));
                                }
                            }
                            assert forall|a: int| 0 <= a < old_nr.len() + 1 implies old_nr.push(q)[a] < n by {
                                if a < old_nr.len() {
                                    assert(old_nr[a] < n);
                                }
                            }
                            crate::util::lemma_distinct_below(old_nr.push(q), n);
                        }
                        nb.set(q as usize, nr.len() as u32);
                        nr.push(q);
                        proof {
                            assert forall|j1: int, j2: int|
                                0 <= j1 < nr.len() && 0 <= j2 < nr.len() && j1 != j2 && block_of@[nr@[j1] as int]
                                    == block_of@[nr@[j2] as int] implies !#[trigger] self.agree(block_of@, nr@[j1], nr@[j2]) by {
                                let l = old_nr.len() as int;
                                if j1 < l && j2 < l {
                                    assert(nr@[j1] == old_nr[j1] && nr@[j2] == old_nr[j2]);
                                } else if j2 == l {
                                    assert(nr@[j1] == old_nr[j1]);
                                    assert(j1 >= first_new);
                                    assert(!self.agree(block_of@, old_nr[j1], q));
                                } else {
                                    assert(nr@[j2] == old_nr[j2]);
                                    assert(j2 >= first_new);
                                    assert(!self.agree(block_of@, old_nr[j2], q));
                                }
                            }
                        }
                    }
                    proof {
                        assert forall|jj: int| 0 <= jj < nr.len() implies #[trigger] nr@[jj] < n && block_of@[nr@[jj] as int] <= b && nb@[nr@[jj] as int] == jj by {
                            if jj < old_nr.len() {
                                assert(nr@[jj] == old_nr[jj]);
                                assert(old_nr[jj] != q) by {
                                    if jj >= first_new {
                                    }
                                }
                            }
                        }
                    }
                }
                q = q + 1;
            }
            proof {
                let r = reps@[b as int];
                assert(block_of@[r as int] == b);
            }
            b = b + 1;
        }
        proof {
            assert forall|x: int| 0 <= x < n implies #[trigger] nb@[x] < nr.len() by {
                let y = x as u32;
                assert(block_of@[y as int] < reps.len());
            }
            assert forall|p: u32, q: u32|
                p < n && q < n && block_of@[p as int] == block_of@[q as int]
                    && #[trigger] self.agree(block_of@, p, q) implies nb@[p as int] == nb@[q as int] by {
                assert(block_of@[p as int] < reps.len());
                assert(block_of@[q as int] < reps.len());
                let j1 = nb@[p as int] as int;
                let j2 = nb@[q as int] as int;
                assert(self.agree(block_of@, nr@[j1], p));
                assert(self.agree(block_of@, nr@[j2], q));
                if j1 != j2 {
                    assert(self.agree(block_of@, nr@[j1], nr@[j2]));
                }
            }
        }
        (nb, nr, done)
    }
}


/// `new` is the quotient of `old` by the partition `block_of`, whose block
/// `b` has the member `reps[b]`: block `b` of `old` is state `b` of `new`.
pub open spec fn is_quotient(old: &Dfa, new: &Dfa, block_of: Seq<u32>, reps: Seq<u32>) -> bool {
    &&& new.num_states == reps.len()
    &&& new.alphabet@ == old.alphabet@
    &&& forall|b: u32, a: char|
        b < new.num_states && old.alphabet@.contains(a) ==> new.has_edge(
            b,
            a,
            block_of[#[trigger] old.target(reps[b as int], a) as int],
        )
    &&& forall|b: u32| b < new.num_states ==> (#[trigger] new.is_accept(b) <==> old.is_accept(reps[b as int]))
}

/// `new` is the quotient of the complete automaton `old` by a stable
/// partition that respects acceptance and puts the start state in block `0`.
pub open spec fn is_minimization(old: &Dfa, new: &Dfa) -> bool {
    exists|block_of: Seq<u32>, reps: Seq<u32>|
        {
            &&& old.is_partition(block_of, reps)
            &&& old.respects_accept(block_of)
            &&& old.is_stable(block_of)
            &&& block_of[0] == 0
            &&& is_quotient(old, new, block_of, reps)
        }
}

/// Minimizing keeps the language: an automaton and its minimization read
/// every word from the start state with the same outcome.
pub proof fn lemma_round_trip(before: &Dfa, after: &Dfa, s: Seq<char>)
    requires
        before.wf(),
        before.complete(),
        after.wf(),
        after.complete(),
        is_minimization(before, after),
    ensures
        after.run_from(0, s) == before.run_from(0, s),
{
    let (block_of, reps) = choose|block_of: Seq<u32>, reps: Seq<u32>|
        {
            &&& before.is_partition(block_of, reps)
            &&& before.respects_accept(block_of)
            &&& before.is_stable(block_of)
            &&& block_of[0] == 0
            &&& is_quotient(before, after, block_of, reps)
        };
    lemma_quotient_runs(before, after, block_of, reps, 0, s);
}

/// Reading a word from a state of a complete automaton, and from its block in
/// the quotient by a stable partition that respects acceptance, gives the same
/// outcome.
pub proof fn lemma_quotient_runs(
    old: &Dfa,
    new: &Dfa,
    block_of: Seq<u32>,
    reps: Seq<u32>,
    q: u32,
    s: Seq<char>,
)
    requires
        old.wf(),
        old.complete(),
        new.wf(),
        new.complete(),
        old.is_partition(block_of, reps),
        old.respects_accept(block_of),
        old.is_stable(block_of),
        is_quotient(old, new, block_of, reps),
        q < old.num_states,
    ensures
        new.run_from(block_of[q as int], s) == old.run_from(q, s),
    decreases s.len(),
{
    let b = block_of[q as int];
    let r = reps[b as int];
    assert(block_of[r as int] == b);
    if s.len() == 0 {
        assert(new.is_accept(b) <==> old.is_accept(r));
    } else if !old.alphabet@.contains(s[0]) {
    } else {
        let a = s[0];
        old.lemma_complete_target(q, a);
        old.lemma_complete_target(r, a);
        let d = old.target(q, a);
        assert(old.equiv_under(block_of, r, q));
        assert(block_of[old.target(r, a) as int] == block_of[d as int]);
        assert(new.has_edge(b, a, block_of[d as int]));
        new.lemma_target(b, a, block_of[d as int]);
        lemma_quotient_runs(old, new, block_of, reps, d, s.drop_first());
    }
}

impl Dfa {
    /// Minimizes the automaton by partition refinement. The first partition
    /// puts the states that agree with the start state on acceptance in block
    /// `0` and the others in block `1`; rounds of refinement follow until none
    /// splits a block; each block becomes a state, numbered by its position, so
    /// that the start state stays `0`. The result reads every word as the
    /// automaton did.
    pub fn minimize(&mut self) -> (r: Result<(), Error>)
        requires
            old(self).wf(),
            old(self).complete(),
        ensures
            r is Ok,
            final(self).wf(),
            final(self).complete(),
            final(self).alphabet@ == old(self).alphabet@,
            final(self).num_states <= old(self).num_states,
            forall|s: Seq<char>| #[trigger] final(self).run_from(0, s) == old(self).run_from(0, s),
            final(self).is_minimal(),
            is_minimization(&*old(self), &*final(self)),
    {
        let n = self.num_states;
        let start_accepts = self.is_accept_state(0);
        let mut block_of: Vec<u32> = Vec::new();
        let mut reps: Vec<u32> = Vec::new();
        reps.push(0);
        let mut q: u32 = 0;
        while q < n
            invariant
                self.wf(),
                n == self.num_states,
                q <= n,
                block_of.len() == q,
                start_accepts == self.is_accept(0),
                1 <= reps.len() <= 2,
                reps@[0] == 0,
                forall|x: int| 0 <= x < q ==> #[trigger] block_of@[x] == if self.is_accept(x as u32) == start_accepts { 0u32 } else { 1u32 },
                reps.len() == 2 ==> reps@[1] < q && block_of@[reps@[1] as int] == 1,
                reps.len() == 1 ==> forall|x: int| 0 <= x < q ==> #[trigger] block_of@[x] == 0,
            decreases n - q,
        {
            if self.is_accept_state(q) == start_accepts {
                block_of.push(0);
            } else {
                block_of.push(1);
                if reps.len() == 1 {
                    reps.push(q);
                }
            }
            q = q + 1;
        }
        proof {
            assert(block_of@[0] == 0);
            if reps.len() == 2 {
                assert(block_of@[reps@[1] as int] == 1);
                assert(reps@[1] != 0);
                crate::util::lemma_distinct_below(reps@, n);
            }
            assert forall|p: u32, x: u32|
                p < n && x < n && #[trigger] block_of@[p as int] == #[trigger] block_of@[x as int] implies (self.is_accept(p) <==> self.is_accept(x)) by {
                assert(block_of@[p as int] == if self.is_accept(p) == start_accepts { 0u32 } else { 1u32 });
                assert(block_of@[x as int] == if self.is_accept(x) == start_accepts { 0u32 } else { 1u32 });
            }
            assert forall|p: u32, x: u32|
                p < n && x < n && #[trigger] self.same_language(p, x) implies block_of@[p as int] == block_of@[x as int] by {
                self.lemma_same_language_step(p, x);
                assert(block_of@[p as int] == if self.is_accept(p) == start_accepts { 0u32 } else { 1u32 });
                assert(block_of@[x as int] == if self.is_accept(x) == start_accepts { 0u32 } else { 1u32 });
            }
        }
        let mut done = false;
        loop
            invariant
                self.wf(),
                self.complete(),
                n == self.num_states,
                self.is_partition(block_of@, reps@),
                self.respects_accept(block_of@),
                self.respects_language(block_of@),
                block_of@[0] == 0,
                done ==> self.is_stable(block_of@),
            ensures
                self.respects_language(block_of@),
                self.is_partition(block_of@, reps@),
                self.respects_accept(block_of@),
                self.is_stable(block_of@),
                block_of@[0] == 0,
            decreases n - reps.len() + if done { 0int } else { 1int },
        {
            if done {
                break;
            }
            let (nb, nr, round_done) = self.refine(&block_of, &reps);
            proof {
                assert forall|p: u32, x: u32|
                    p < n && x < n && #[trigger] self.same_language(p, x) implies nb@[p as int] == nb@[x as int] by {
                    self.lemma_same_language_step(p, x);
                    assert forall|a: char| #[trigger] self.alphabet@.contains(a) implies block_of@[self.target(p, a) as int]
                        == block_of@[self.target(x, a) as int] by {
                        self.lemma_complete_target(p, a);
                        self.lemma_complete_target(x, a);
                        assert(self.same_language(self.target(p, a), self.target(x, a)));
                    }
                    assert(self.agree(block_of@, p, x));
                }
                assert forall|p: u32, x: u32|
                    p < n && x < n && #[trigger] nb@[p as int] == #[trigger] nb@[x as int] implies (self.is_accept(p) <==> self.is_accept(x)) by {
                    let rp = nr@[nb@[p as int] as int];
                    assert(block_of@[rp as int] == block_of@[p as int]);
                    assert(block_of@[rp as int] == block_of@[x as int]);
                }
                if round_done {
                    assert forall|p: u32, x: u32|
                        p < n && x < n && #[trigger] nb@[p as int] == #[trigger] nb@[x as int] implies self.equiv_under(nb@, p, x) by {
                        let rp = nr@[nb@[p as int] as int];
                        assert(self.agree(block_of@, rp, p));
                        assert(self.agree(block_of@, rp, x));
                        assert forall|a: char| #[trigger] self.alphabet@.contains(a) implies nb@[self.target(p, a) as int]
                            == nb@[self.target(x, a) as int] by {
                            assert(block_of@[self.target(rp, a) as int] == block_of@[self.target(p, a) as int]);
                            assert(block_of@[self.target(rp, a) as int] == block_of@[self.target(x, a) as int]);
                        }
                    }
                }
            }
            done = round_done;
            block_of = nb;
            reps = nr;
        }
        let k = reps.len() as u32;
        let mut edges: Vec<(u32, char, u32)> = Vec::new();
        let mut accept: Vec<u32> = Vec::new();
        let mut b: u32 = 0;
        while b < k
            invariant
                self.wf(),
                self.complete(),
                n == self.num_states,
                k == reps.len(),
                self.is_partition(block_of@, reps@),
                b <= k,
                sorted_strict(accept@),
                forall|x: int| 0 <= x < accept@.len() ==> #[trigger] accept@[x] < b,
                forall|c: u32| c < b ==> (accept@.contains(c) <==> self.is_accept(#[trigger] reps@[c as int])),
                forall|j: int| 0 <= j < edges@.len() ==> {
                    let t = #[trigger] edges@[j];
                    t.0 < b && t.2 < k && self.alphabet@.contains(t.1) && t.2 == block_of@[self.target(reps@[t.0 as int], t.1) as int]
                },
                keys_unique(edges@),
                forall|c: u32, a: char|
                    c < b && self.alphabet@.contains(a) ==> edges@.contains((c, a, block_of@[#[trigger] self.target(reps@[c as int], a) as int])),
            decreases k - b,
        {
            let rep = reps[b as usize];
            let ghost before_b = edges@;
            let mut j: usize = 0;
            while j < self.alphabet.len()
                invariant
                    self.wf(),
                    self.complete(),
                    n == self.num_states,
                    k == reps.len(),
                    self.is_partition(block_of@, reps@),
                    b < k,
                    rep == reps@[b as int],
                    j <= self.alphabet.len(),
                    forall|x: int| 0 <= x < edges@.len() ==> {
                        let t = #[trigger] edges@[x];
                        (t.0 < b || (t.0 == b && self.alphabet@.take(j as int).contains(t.1))) && t.2 < k && self.alphabet@.contains(t.1)
                            && t.2 == block_of@[self.target(reps@[t.0 as int], t.1) as int]
                    },
                    keys_unique(edges@),
                    forall|c: u32, a: char|
                        c < b && self.alphabet@.contains(a) ==> edges@.contains((c, a, block_of@[#[trigger] self.target(reps@[c as int], a) as int])),
                    forall|y: int| 0 <= y < j ==> edges@.contains((b, #[trigger] self.alphabet@[y], block_of@[self.target(rep, self.alphabet@[y]) as int])),
                decreases self.alphabet.len() - j,
            {
                let a = self.alphabet[j];
                proof {
                    self.lemma_complete_target(rep, a);
                }
                let d = match self.get_transition((rep, a)) {
                    Some(d) => d,
                    None => {
                        return Err(Error::IncompleteAutomaton);
                    },
                };
                let target = block_of[d as usize];
                let ghost old_edges = edges@;
                edges.push((b, a, target));
                proof {
                    assert(edges@[edges@.len() - 1] == (b, a, target));
                    assert(self.alphabet@.take(j as int + 1)[j as int] == a);
                    assert(!self.alphabet@.take(j as int).contains(a)) by {
                        if self.alphabet@.take(j as int).contains(a) {
                            let x = choose|x: int| 0 <= x < j && self.alphabet@.take(j as int)[x] == a;
                            assert(self.alphabet@[x] == self.alphabet@[j as int]);
                        }
                    }
                    assert forall|x: int| 0 <= x < edges@.len() implies {
                        let t = #[trigger] edges@[x];
                        (t.0 < b || (t.0 == b && self.alphabet@.take(j as int + 1).contains(t.1))) && t.2 < k && self.alphabet@.contains(t.1)
                            && t.2 == block_of@[self.target(reps@[t.0 as int], t.1) as int]
                    } by {
                        if x < old_edges.len() {
                            let t = old_edges[x];
                            assert(edges@[x] == t);
                            if t.0 == b && self.alphabet@.take(j as int).contains(t.1) {
                                let y = choose|y: int| 0 <= y < j && self.alphabet@.take(j as int)[y] == t.1;
                                assert(self.alphabet@.take(j as int + 1)[y] == t.1);
                            }
                        } else {
                            assert(self.alphabet@.contains(a));
                        }
                    }
                    assert forall|x: int, y: int|
                        0 <= x < edges@.len() && 0 <= y < edges@.len() && (#[trigger] edges@[x]).0 == (#[trigger] edges@[y]).0
                            && edges@[x].1 == edges@[y].1 implies x == y by {
                        let l = old_edges.len() as int;
                        if x < l && y < l {
                            assert(old_edges[x] == edges@[x] && old_edges[y] == edges@[y]);
                        } else if x < l {
                            assert(old_edges[x] == edges@[x]);
                        } else if y < l {
                            assert(old_edges[y] == edges@[y]);
                        }
                    }
                    assert forall|c: u32, e: char|
                        c < b && self.alphabet@.contains(e) implies edges@.contains((c, e, block_of@[#[trigger] self.target(reps@[c as int], e) as int])) by {
                        let t = (c, e, block_of@[self.target(reps@[c as int], e) as int]);
                        assert(old_edges.contains(t));
                        let x = choose|x: int| 0 <= x < old_edges.len() && old_edges[x] == t;
                        assert(edges@[x] == t);
                    }
                    assert forall|y: int| 0 <= y < j + 1 implies edges@.contains((b, #[trigger] self.alphabet@[y], block_of@[self.target(rep, self.alphabet@[y]) as int])) by {
                        let t = (b, self.alphabet@[y], block_of@[self.target(rep, self.alphabet@[y]) as int]);
                        if y < j {
                            assert(old_edges.contains(t));
                            let x = choose|x: int| 0 <= x < old_edges.len() && old_edges[x] == t;
                            assert(edges@[x] == t);
                        } else {
                            assert(edges@[edges@.len() - 1] == t);
                        }
                    }
                }
                j = j + 1;
            }
            let ghost old_acc = accept@;
            if self.is_accept_state(rep) {
                accept.push(b);
            }
            proof {
                assert(self.alphabet@.take(j as int) =~= self.alphabet@);
                assert forall|c: u32, a: char|
                    c < b + 1 && self.alphabet@.contains(a) implies edges@.contains((c, a, block_of@[#[trigger] self.target(reps@[c as int], a) as int])) by {
                    if c == b {
                        let y = choose|y: int| 0 <= y < self.alphabet@.len() && self.alphabet@[y] == a;
                        assert(edges@.contains((b, self.alphabet@[y], block_of@[self.target(rep, self.alphabet@[y]) as int])));
                    }
                }
                assert forall|c: u32| c < b + 1 implies (accept@.contains(c) <==> self.is_accept(#[trigger] reps@[c as int])) by {
                    if c < b {
                        if accept@.contains(c) {
                            let x = choose|x: int| 0 <= x < accept@.len() && accept@[x] == c;
                            if x < old_acc.len() {
                                assert(old_acc[x] == c);
                            }
                        }
                        if old_acc.contains(c) {
                            let x = choose|x: int| 0 <= x < old_acc.len() && old_acc[x] == c;
                            assert(accept@[x] == c);
                        }
                    } else {
                        if accept@.contains(c) && old_acc.contains(c) {
                            let x = choose|x: int| 0 <= x < old_acc.len() && old_acc[x] == c;
                            assert(old_acc[x] < b);
                        }
                        if accept@.len() > old_acc.len() {
                            assert(accept@[accept@.len() - 1] == c);
                        }
                    }
                }
            }
            b = b + 1;
        }
        let ghost old_dfa = *self;
        let new_dfa = Dfa {
            num_states: k,
            alphabet: self.alphabet.clone(),
            transitions: edges,
            accept_states: accept,
        };
        proof {
            assert(new_dfa.alphabet@ == old_dfa.alphabet@);
            assert forall|i: int| 0 <= i < new_dfa.accept_states@.len() implies #[trigger] new_dfa.accept_states@[i]
                < new_dfa.num_states by {
            }
            assert forall|c: u32, a: char|
                c < new_dfa.num_states && new_dfa.alphabet@.contains(a) implies #[trigger] new_dfa.has_key(c, a) by {
                assert(old_dfa.alphabet@.contains(a));
                assert(new_dfa.has_edge(c, a, block_of@[old_dfa.target(reps@[c as int], a) as int]));
            }
            assert(is_quotient(&old_dfa, &new_dfa, block_of@, reps@));
            assert(is_minimization(&old_dfa, &new_dfa));
            assert forall|s: Seq<char>| #[trigger] new_dfa.run_from(0, s) == old_dfa.run_from(0, s) by {
                lemma_quotient_runs(&old_dfa, &new_dfa, block_of@, reps@, 0, s);
            }
            assert forall|b1: u32, b2: u32|
                b1 < new_dfa.num_states && b2 < new_dfa.num_states && b1 != b2 implies !#[trigger] new_dfa.same_language(b1, b2) by {
                let r1 = reps@[b1 as int];
                let r2 = reps@[b2 as int];
                assert(block_of@[r1 as int] == b1 && block_of@[r2 as int] == b2);
                if new_dfa.same_language(b1, b2) {
                    assert forall|s: Seq<char>| #[trigger] old_dfa.run_from(r1, s) == old_dfa.run_from(r2, s) by {
                        lemma_quotient_runs(&old_dfa, &new_dfa, block_of@, reps@, r1, s);
                        lemma_quotient_runs(&old_dfa, &new_dfa, block_of@, reps@, r2, s);
                        assert(new_dfa.run_from(b1, s) == new_dfa.run_from(b2, s));
                    }
                    assert(old_dfa.same_language(r1, r2));
                }
            }
        }
        *self = new_dfa;
        Ok(())
    }
}


/// The position of the first set of `sets` that holds `q`, or `-1`.
pub open spec fn block_index(sets: Seq<Vec<u32>>, q: u32) -> int
    decreases sets.len(),
{
    if sets.len() == 0 {
        -1
    } else {
        let r = block_index(sets.drop_last(), q);
        if r >= 0 {
            r
        } else if sets.last()@.contains(q) {
            sets.len() - 1
        } else {
            -1
        }
    }
}

/// The position of the first set of `sets` that holds `q`.
fn find_block(sets: &[Vec<u32>], q: u32) -> (r: Option<usize>)
    ensures
        r matches Some(i) ==> i as int == block_index(sets@, q),
        r is None ==> block_index(sets@, q) == -1,
{
    let mut i: usize = 0;
    while i < sets.len()
        invariant
            i <= sets@.len(),
            block_index(sets@.take(i as int), q) == -1,
        decreases sets@.len() - i,
    {
        proof {
            assert(sets@.take(i as int + 1).drop_last() =~= sets@.take(i as int));
            assert(sets@.take(i as int + 1).last() == sets@[i as int]);
        }
        if crate::nfa::vec_contains_u32(&sets[i], q) {
            proof {
                lemma_block_index_prefix(sets@, q, i as int + 1);
            }
            return Some(i);
        }
        i = i + 1;
    }
    assert(sets@.take(i as int) =~= sets@);
    None
}

/// A set found in a prefix is the first one in the whole list.
proof fn lemma_block_index_prefix(sets: Seq<Vec<u32>>, q: u32, k: int)
    requires
        0 <= k <= sets.len(),
        block_index(sets.take(k), q) >= 0,
    ensures
        block_index(sets, q) == block_index(sets.take(k), q),
    decreases sets.len() - k,
{
    if k < sets.len() {
        assert(sets.take(k + 1).drop_last() =~= sets.take(k));
        lemma_block_index_prefix(sets, q, k + 1);
    } else {
        assert(sets.take(k) =~= sets);
    }
}

impl Dfa {
    /// `first` and `second` lie in the same set of `sets`, and so do their
    /// targets on every symbol; a state found in no set, or without a
    /// transition, is equivalent to none.
    pub open spec fn n_equivalent(&self, sets: Seq<Vec<u32>>, first: u32, second: u32) -> bool {
        &&& block_index(sets, first) >= 0
        &&& block_index(sets, first) == block_index(sets, second)
        &&& forall|a: char|
            #[trigger] self.alphabet@.contains(a) ==> {
                &&& self.has_key(first, a)
                &&& self.has_key(second, a)
                &&& block_index(sets, self.target(first, a)) >= 0
                &&& block_index(sets, self.target(first, a)) == block_index(
                    sets,
                    self.target(second, a),
                )
            }
    }

    /// Determines whether two states are n-equivalent under the partition `sets`.
    pub fn are_equivalent(&self, sets: &[Vec<u32>], first: u32, second: u32) -> (r: bool)
        requires
            self.wf(),
        ensures
            r == self.n_equivalent(sets@, first, second),
    {
        let first_id = match find_block(sets, first) {
            Some(i) => i,
            None => {
                return false;
            },
        };
        let second_id = match find_block(sets, second) {
            Some(i) => i,
            None => {
                return false;
            },
        };
        if first_id != second_id {
            return false;
        }
        let mut k: usize = 0;
        while k < self.alphabet.len()
            invariant
                self.wf(),
                k <= self.alphabet.len(),
                forall|j: int| 0 <= j < k ==> {
                    let a = #[trigger] self.alphabet@[j];
                    &&& self.has_key(first, a)
                    &&& self.has_key(second, a)
                    &&& block_index(sets@, self.target(first, a)) >= 0
                    &&& block_index(sets@, self.target(first, a)) == block_index(sets@, self.target(second, a))
                },
            decreases self.alphabet.len() - k,
        {
            let a = self.alphabet[k];
            assert(self.alphabet@[k as int] == a && self.alphabet@.contains(a));
            let d1 = match self.get_transition((first, a)) {
                Some(d) => d,
                None => {
                    assert(!self.has_key(first, a));
                    return false;
                },
            };
            let d2 = match self.get_transition((second, a)) {
                Some(d) => d,
                None => {
                    assert(!self.has_key(second, a));
                    return false;
                },
            };
            proof {
                self.lemma_target(first, a, d1);
                self.lemma_target(second, a, d2);
            }
            let b1 = match find_block(sets, d1) {
                Some(i) => i,
                None => {
                    return false;
                },
            };
            let b2 = find_block(sets, d2);
            match b2 {
                Some(i) => {
                    if i != b1 {
                        return false;
                    }
                },
                None => {
                    return false;
                },
            }
            k = k + 1;
        }
        proof {
            assert forall|a: char| #[trigger] self.alphabet@.contains(a) implies {
                &&& self.has_key(first, a)
                &&& self.has_key(second, a)
                &&& block_index(sets@, self.target(first, a)) >= 0
                &&& block_index(sets@, self.target(first, a)) == block_index(sets@, self.target(second, a))
            } by {
                let j = choose|j: int| 0 <= j < self.alphabet@.len() && self.alphabet@[j] == a;
                assert(self.alphabet@[j] == a);
            }
        }
        true
    }
}

} // verus!

//! Backtracking enumeration of pairwise-disjoint combinations of letter sets.
//!
//! The engine walks an ordered key list and grows a partial combination one
//! key at a time, only ever appending keys that lie strictly after the
//! previously appended one (so each set of keys is met exactly once) and only
//! when the key shares no letter with the running union (so every completed
//! combination is pairwise disjoint).
//!
//! [`find_results`] returns exactly the sequence [`results_of`] describes;
//! what that enumeration guarantees is proved once and for all by
//! [`lemma_results_valid`] (every emitted combination is a full, disjoint
//! selection from the pool), [`lemma_results_no_duplicates`] (no combination
//! is emitted twice, even reordered), [`lemma_results_exhaustive`] (every
//! disjoint selection is emitted), and [`lemma_results_union_population`]
//! (a full combination's union covers `t * p` letters).

use crate::letter_set::{lemma_pop_or_disjoint, lemma_pop_zero, mask_inv, pop, LetterSet};
use vstd::prelude::*;

verus! {

/// The masks of a sequence of letter sets.
pub open spec fn masks_of(s: Seq<LetterSet>) -> Seq<u32> {
    s.map_values(|x: LetterSet| x@)
}

/// The mask sequences of a sequence of combinations.
pub open spec fn views_of(s: Seq<LetterSetSet>) -> Seq<Seq<u32>> {
    s.map_values(|c: LetterSetSet| c@)
}

/// The bitwise union of a sequence of masks.
pub open spec fn seq_or(s: Seq<u32>) -> u32
    decreases s.len(),
{
    if s.len() == 0 {
        0u32
    } else {
        seq_or(s.drop_last()) | s.last()
    }
}

/// No two masks of the sequence share a bit.
pub open spec fn pairwise_disjoint(s: Seq<u32>) -> bool {
    forall|i: int, j: int| 0 <= i < j < s.len() ==> s[i] & s[j] == 0u32
}

/// The combinations the search emits, in emission order: each is `stack`
/// extended to length `t` by candidates drawn left to right from `sets`,
/// skipping any candidate that overlaps the running union.
pub open spec fn results_of(sets: Seq<u32>, stack: Seq<u32>, t: nat) -> Seq<Seq<u32>>
    decreases sets.len(),
{
    if stack.len() == t {
        seq![stack]
    } else if sets.len() == 0 {
        Seq::empty()
    } else {
        (if seq_or(stack) & sets[0] == 0u32 {
            results_of(sets.skip(1), stack.push(sets[0]), t)
        } else {
            Seq::empty()
        }) + results_of(sets.skip(1), stack, t)
    }
}

/// If a mask is disjoint from the union of a sequence, it is disjoint from
/// every element.
pub proof fn lemma_seq_or_covers(s: Seq<u32>, x: u32)
    requires
        seq_or(s) & x == 0u32,
    ensures
        forall|i: int| 0 <= i < s.len() ==> s[i] & x == 0u32,
    decreases s.len(),
{
    if s.len() > 0 {
        let o = seq_or(s.drop_last());
        let l = s.last();
        assert(o & x == 0u32 && l & x == 0u32) by (bit_vector)
            requires
                (o | l) & x == 0u32,
        ;
        lemma_seq_or_covers(s.drop_last(), x);
        assert forall|i: int| 0 <= i < s.len() implies s[i] & x == 0u32 by {
            if i < s.len() - 1 {
                assert(s.drop_last()[i] & x == 0u32);
            } else {
                assert(s[i] == l);
            }
        }
    }
}

/// If a mask is disjoint from every element of a sequence, it is disjoint
/// from their union.
pub proof fn lemma_seq_or_bound(s: Seq<u32>, x: u32)
    requires
        forall|i: int| 0 <= i < s.len() ==> s[i] & x == 0u32,
    ensures
        seq_or(s) & x == 0u32,
    decreases s.len(),
{
    if s.len() == 0 {
        assert(0u32 & x == 0u32) by (bit_vector);
    } else {
        lemma_seq_or_bound(s.drop_last(), x);
        let o = seq_or(s.drop_last());
        let l = s.last();
        assert((o | l) & x == 0u32) by (bit_vector)
            requires
                o & x == 0u32,
                l & x == 0u32,
        ;
    }
}

/// An ordered, bounded combination of pairwise-disjoint letter sets together
/// with their running union.
pub struct LetterSetSet {
    sets: Vec<LetterSet>,
    merged: LetterSet,
    limit: usize,
}

impl View for LetterSetSet {
    type V = Seq<u32>;

    closed spec fn view(&self) -> Seq<u32> {
        masks_of(self.sets@)
    }
}

impl LetterSetSet {
    /// The capacity the combination was created with.
    pub closed spec fn cap(&self) -> nat {
        self.limit as nat
    }

    /// The cached union of the members' masks.
    pub closed spec fn union_val(&self) -> u32 {
        self.merged@
    }

    /// Well-formedness: the members are pairwise disjoint, the cached union
    /// is exactly their bitwise union, and the length never exceeds the
    /// capacity.
    pub open spec fn inv(&self) -> bool {
        &&& self.union_val() == seq_or(self@)
        &&& pairwise_disjoint(self@)
        &&& self@.len() <= self.cap()
    }

    /// An empty combination with room for `capacity` letter sets.
    pub fn new(capacity: usize) -> (r: Self)
        ensures
            r@ == Seq::<u32>::empty(),
            r.cap() == capacity,
            r.inv(),
    {
        let r = LetterSetSet { sets: Vec::new(), merged: LetterSet::empty(), limit: capacity };
        proof {
            assert(r@ =~= Seq::<u32>::empty());
        }
        r
    }

    /// The number of letter sets in the combination.
    pub fn len(&self) -> (r: usize)
        ensures
            r == self@.len(),
    {
        self.sets.len()
    }

    /// The capacity the combination was created with.
    pub fn capacity(&self) -> (r: usize)
        ensures
            r as nat == self.cap(),
    {
        self.limit
    }

    /// The member letter sets, in the order they were appended.
    pub fn members(&self) -> (r: &Vec<LetterSet>)
        ensures
            masks_of(r@) == self@,
    {
        &self.sets
    }

    /// True when `set` shares a letter with some member of the combination.
    pub fn overlaps(&self, set: LetterSet) -> (r: bool)
        requires
            self.inv(),
        ensures
            r == ((seq_or(self@) & set@) != 0u32),
    {
        self.merged.overlaps(set)
    }

    /// The combination extended by one more disjoint letter set.  Appending
    /// past the capacity, or appending a set that overlaps the union, would
    /// break the combination's invariant and is ruled out.
    pub fn push(&self, set: LetterSet) -> (r: Self)
        requires
            self.inv(),
            self@.len() < self.cap(),
            seq_or(self@) & set@ == 0u32,
        ensures
            r.inv(),
            r@ == self@.push(set@),
            r.cap() == self.cap(),
    {
        let mut v: Vec<LetterSet> = Vec::new();
        let mut i: usize = 0;
        while i < self.sets.len()
            invariant
                i <= self.sets@.len(),
                v@ == self.sets@.take(i as int),
            decreases self.sets@.len() - i,
        {
            let x = self.sets[i];
            v.push(x);
            proof {
                assert(self.sets@.take(i as int + 1) =~= self.sets@.take(i as int).push(
                    self.sets@[i as int],
                ));
            }
            i = i + 1;
        }
        proof {
            assert(self.sets@.take(self.sets@.len() as int) =~= self.sets@);
        }
        v.push(set);
        let r = LetterSetSet { sets: v, merged: self.merged.union(set), limit: self.limit };
        proof {
            assert(v@ =~= self.sets@.push(set));
            assert(r@ =~= self@.push(set@));
            assert(r@.drop_last() =~= self@);
            assert(r@.last() == set@);
            lemma_seq_or_covers(self@, set@);
            assert forall|a: int, b: int| 0 <= a < b < r@.len() implies r@[a] & r@[b]
                == 0u32 by {
                if b < self@.len() {
                } else {
                    assert(r@[b] == set@);
                    assert(self@[a] & set@ == 0u32);
                }
            }
        }
        r
    }
}

impl Clone for LetterSetSet {
    /// An identical combination: same members, same union, same capacity.
    fn clone(&self) -> (r: Self)
        ensures
            r@ == self@,
            r.cap() == self.cap(),
            r.union_val() == self.union_val(),
    {
        let mut v: Vec<LetterSet> = Vec::new();
        let mut i: usize = 0;
        while i < self.sets.len()
            invariant
                i <= self.sets@.len(),
                v@ == self.sets@.take(i as int),
            decreases self.sets@.len() - i,
        {
            let x = self.sets[i];
            v.push(x);
            proof {
                assert(self.sets@.take(i as int + 1) =~= self.sets@.take(i as int).push(
                    self.sets@[i as int],
                ));
            }
            i = i + 1;
        }
        proof {
            assert(self.sets@.take(self.sets@.len() as int) =~= self.sets@);
        }
        LetterSetSet { sets: v, merged: self.merged, limit: self.limit }
    }
}

/// Depth-first enumeration of every way to extend `stack` to exactly `t`
/// pairwise-disjoint letter sets using candidates of `sets` from position
/// `from` on, each appended candidate drawn strictly after the previous one.
/// Returns the completed combinations in discovery order.
pub fn find_results(sets: &Vec<LetterSet>, from: usize, t: usize, stack: &LetterSetSet) -> (out:
    Vec<LetterSetSet>)
    requires
        from <= sets@.len(),
        stack.inv(),
        stack.cap() == t,
        stack@.len() <= t,
    ensures
        views_of(out@) == results_of(masks_of(sets@).skip(from as int), stack@, t as nat),
        forall|k: int|
            0 <= k < out@.len() ==> (#[trigger] out@[k]).inv() && out@[k].cap() == t,
    decreases sets@.len() - from,
{
    let ghost full = masks_of(sets@);
    let mut out: Vec<LetterSetSet> = Vec::new();
    if stack.len() == t {
        out.push(stack.clone());
        proof {
            assert(views_of(out@) =~= seq![stack@]);
        }
        return out;
    }
    let mut i: usize = from;
    proof {
        assert(views_of(out@) =~= Seq::<Seq<u32>>::empty());
        assert(Seq::<Seq<u32>>::empty() + results_of(full.skip(from as int), stack@, t as nat)
            =~= results_of(full.skip(from as int), stack@, t as nat));
    }
    while i < sets.len()
        invariant
            from <= i <= sets@.len(),
            full == masks_of(sets@),
            stack.inv(),
            stack.cap() == t,
            stack@.len() < t,
            views_of(out@) + results_of(full.skip(i as int), stack@, t as nat) == results_of(
                full.skip(from as int),
                stack@,
                t as nat,
            ),
            forall|k: int|
                0 <= k < out@.len() ==> (#[trigger] out@[k]).inv() && out@[k].cap() == t,
        decreases sets@.len() - i,
    {
        let set = sets[i];
        let ghost tail = full.skip(i as int);
        proof {
            assert(tail[0] == full[i as int]);
            assert(tail.skip(1) =~= full.skip(i as int + 1));
        }
        if !stack.overlaps(set) {
            let stack2 = stack.push(set);
            let mut sub = find_results(sets, i + 1, t, &stack2);
            let ghost pre_out = out@;
            let ghost pre_sub = sub@;
            out.append(&mut sub);
            proof {
                assert(views_of(out@) =~= views_of(pre_out) + views_of(pre_sub));
                assert(results_of(tail, stack@, t as nat) == views_of(pre_sub) + results_of(
                    full.skip(i as int + 1),
                    stack@,
                    t as nat,
                ));
                assert((views_of(pre_out) + views_of(pre_sub)) + results_of(
                    full.skip(i as int + 1),
                    stack@,
                    t as nat,
                ) =~= views_of(pre_out) + (views_of(pre_sub) + results_of(
                    full.skip(i as int + 1),
                    stack@,
                    t as nat,
                )));
            }
        } else {
            proof {
                assert(results_of(tail, stack@, t as nat) == Seq::<Seq<u32>>::empty()
                    + results_of(full.skip(i as int + 1), stack@, t as nat));
                assert(Seq::<Seq<u32>>::empty() + results_of(full.skip(i as int + 1), stack@, t as nat)
                    =~= results_of(full.skip(i as int + 1), stack@, t as nat));
            }
        }
        i = i + 1;
    }
    proof {
        assert(full.skip(sets@.len() as int) =~= Seq::<u32>::empty());
        assert(views_of(out@) + results_of(Seq::<u32>::empty(), stack@, t as nat) =~= views_of(
            out@,
        ));
    }
    out
}

/// A sequence extended by one disjoint mask stays pairwise disjoint.
pub proof fn lemma_pairwise_push(stack: Seq<u32>, x: u32)
    requires
        pairwise_disjoint(stack),
        seq_or(stack) & x == 0u32,
    ensures
        pairwise_disjoint(stack.push(x)),
{
    lemma_seq_or_covers(stack, x);
    assert forall|a: int, b: int| 0 <= a < b < stack.push(x).len() implies stack.push(x)[a]
        & stack.push(x)[b] == 0u32 by {
        if b < stack.len() {
        } else {
            assert(stack.push(x)[b] == x);
            assert(stack[a] & x == 0u32);
        }
    }
}

proof fn lemma_contains_skip1(sets: Seq<u32>, x: u32)
    requires
        sets.len() > 0,
        sets.skip(1).contains(x),
    ensures
        sets.contains(x),
{
    let i = choose|i: int| 0 <= i < sets.skip(1).len() && sets.skip(1)[i] == x;
    assert(sets[i + 1] == x);
}

/// A combination emitted from `stack` over the pool `sets`: it has length
/// exactly `t`, is pairwise disjoint, begins with `stack`, and draws every
/// member from `stack` or the pool.
pub open spec fn extends_to(r: Seq<u32>, stack: Seq<u32>, sets: Seq<u32>, t: nat) -> bool {
    &&& r.len() == t
    &&& pairwise_disjoint(r)
    &&& r.subrange(0, stack.len() as int) == stack
    &&& forall|x: u32| r.contains(x) ==> stack.contains(x) || sets.contains(x)
}

/// Combination validity: every emitted combination has length exactly `t`,
/// pairwise-disjoint members, begins with the partial combination it grew
/// from, and only uses candidates from the pool.
pub proof fn lemma_results_valid(sets: Seq<u32>, stack: Seq<u32>, t: nat)
    requires
        pairwise_disjoint(stack),
        stack.len() <= t,
    ensures
        forall|k: int|
            0 <= k < results_of(sets, stack, t).len() ==> extends_to(
                #[trigger] results_of(sets, stack, t)[k],
                stack,
                sets,
                t,
            ),
    decreases sets.len(),
{
    let rs = results_of(sets, stack, t);
    if stack.len() == t {
        assert(rs[0] == stack);
        assert(stack.subrange(0, stack.len() as int) =~= stack);
        assert(extends_to(stack, stack, sets, t));
    } else if sets.len() == 0 {
    } else {
        let s0 = sets[0];
        let skip1 = sets.skip(1);
        let rest = results_of(skip1, stack, t);
        lemma_results_valid(skip1, stack, t);
        let branch: Seq<Seq<u32>> = if seq_or(stack) & s0 == 0u32 {
            results_of(skip1, stack.push(s0), t)
        } else {
            Seq::empty()
        };
        if seq_or(stack) & s0 == 0u32 {
            lemma_pairwise_push(stack, s0);
            lemma_results_valid(skip1, stack.push(s0), t);
        }
        assert forall|k: int| 0 <= k < rs.len() implies extends_to(rs[k], stack, sets, t) by {
            if k < branch.len() {
                let r = branch[k];
                assert(rs[k] == r);
                assert(extends_to(r, stack.push(s0), skip1, t));
                assert forall|i: int| 0 <= i < stack.len() implies r.subrange(
                    0,
                    stack.len() as int,
                )[i] == stack[i] by {
                    assert(r.subrange(0, stack.len() as int + 1)[i] == stack.push(s0)[i]);
                }
                assert(r.subrange(0, stack.len() as int) =~= stack);
                assert forall|x: u32| r.contains(x) implies stack.contains(x) || sets.contains(
                    x,
                ) by {
                    if stack.push(s0).contains(x) {
                        let i = choose|i: int|
                            0 <= i < stack.push(s0).len() && stack.push(s0)[i] == x;
                        if i < stack.len() {
                            assert(stack[i] == x);
                        } else {
                            assert(x == s0);
                            assert(sets.contains(x));
                        }
                    } else {
                        lemma_contains_skip1(sets, x);
                    }
                }
            } else {
                let r = rest[k - branch.len()];
                assert(rs[k] == r);
                assert(extends_to(r, stack, skip1, t));
                assert forall|x: u32| r.contains(x) implies stack.contains(x) || sets.contains(
                    x,
                ) by {
                    if !stack.contains(x) {
                        lemma_contains_skip1(sets, x);
                    }
                }
            }
        }
    }
}

/// No-duplicate enumeration: over a pool without repeated keys, no two
/// emitted combinations coincide when viewed as unordered sets of keys.
pub proof fn lemma_results_no_duplicates(sets: Seq<u32>, stack: Seq<u32>, t: nat)
    requires
        sets.no_duplicates(),
        pairwise_disjoint(stack),
        stack.len() <= t,
        forall|x: u32| stack.contains(x) ==> !sets.contains(x),
    ensures
        forall|a: int, b: int|
            0 <= a < b < results_of(sets, stack, t).len() ==> (#[trigger] results_of(
                sets,
                stack,
                t,
            )[a]).to_set() != (#[trigger] results_of(sets, stack, t)[b]).to_set(),
    decreases sets.len(),
{
    let rs = results_of(sets, stack, t);
    if stack.len() == t || sets.len() == 0 {
    } else {
        let s0 = sets[0];
        let skip1 = sets.skip(1);
        let rest = results_of(skip1, stack, t);
        assert(skip1.no_duplicates()) by {
            assert forall|i: int, j: int|
                0 <= i < skip1.len() && 0 <= j < skip1.len() && i != j implies skip1[i]
                != skip1[j] by {
                assert(skip1[i] == sets[i + 1]);
                assert(skip1[j] == sets[j + 1]);
            }
        }
        assert forall|x: u32| stack.contains(x) implies !skip1.contains(x) by {
            if skip1.contains(x) {
                lemma_contains_skip1(sets, x);
            }
        }
        lemma_results_no_duplicates(skip1, stack, t);
        lemma_results_valid(skip1, stack, t);
        let branch: Seq<Seq<u32>> = if seq_or(stack) & s0 == 0u32 {
            results_of(skip1, stack.push(s0), t)
        } else {
            Seq::empty()
        };
        assert(!skip1.contains(s0)) by {
            if skip1.contains(s0) {
                let i = choose|i: int| 0 <= i < skip1.len() && skip1[i] == s0;
                assert(sets[i + 1] == sets[0]);
            }
        }
        if seq_or(stack) & s0 == 0u32 {
            lemma_pairwise_push(stack, s0);
            assert forall|x: u32| stack.push(s0).contains(x) implies !skip1.contains(x) by {
                let i = choose|i: int| 0 <= i < stack.push(s0).len() && stack.push(s0)[i] == x;
                if i < stack.len() {
                    assert(stack[i] == x);
                } else {
                    assert(x == s0);
                }
            }
            lemma_results_no_duplicates(skip1, stack.push(s0), t);
            lemma_results_valid(skip1, stack.push(s0), t);
        }
        assert forall|a: int, b: int| 0 <= a < b < rs.len() implies rs[a].to_set()
            != rs[b].to_set() by {
            if b < branch.len() {
                assert(rs[a] == branch[a]);
                assert(rs[b] == branch[b]);
            } else if a >= branch.len() {
                assert(rs[a] == rest[a - branch.len()]);
                assert(rs[b] == rest[b - branch.len()]);
            } else {
                let r1 = branch[a];
                let r2 = rest[b - branch.len()];
                assert(rs[a] == r1);
                assert(rs[b] == r2);
                assert(extends_to(r1, stack.push(s0), skip1, t));
                assert(extends_to(r2, stack, skip1, t));
                assert(r1[stack.len() as int] == s0) by {
                    assert(r1.subrange(0, stack.len() as int + 1)[stack.len() as int]
                        == stack.push(s0)[stack.len() as int]);
                }
                assert(r1.contains(s0));
                assert(r1.to_set().contains(s0));
                assert(!r2.to_set().contains(s0)) by {
                    if r2.contains(s0) {
                        assert(stack.contains(s0) || skip1.contains(s0));
                        assert(sets.contains(s0));
                    }
                }
            }
        }
    }
}

/// Index sequences that pick pool positions in strictly increasing order.
pub open spec fn increasing_in(idx: Seq<int>, n: int) -> bool {
    &&& forall|j: int| 0 <= j < idx.len() ==> 0 <= #[trigger] idx[j] < n
    &&& forall|j: int, k: int| 0 <= j < k < idx.len() ==> idx[j] < idx[k]
}

/// The masks selected from `sets` at the positions of `idx`.
pub open spec fn selection_of(sets: Seq<u32>, idx: Seq<int>) -> Seq<u32> {
    Seq::new(idx.len(), |j: int| sets[idx[j]])
}

/// Exhaustiveness: every pairwise-disjoint way to extend the partial
/// combination to length `t` with candidates picked at strictly increasing
/// pool positions is among the emitted combinations.
pub proof fn lemma_results_exhaustive(sets: Seq<u32>, stack: Seq<u32>, t: nat, idx: Seq<int>)
    requires
        increasing_in(idx, sets.len() as int),
        stack.len() + idx.len() == t,
        pairwise_disjoint(stack + selection_of(sets, idx)),
    ensures
        results_of(sets, stack, t).contains(stack + selection_of(sets, idx)),
    decreases sets.len(),
{
    let c = stack + selection_of(sets, idx);
    let rs = results_of(sets, stack, t);
    if idx.len() == 0 {
        assert(c =~= stack);
        assert(rs[0] == stack);
        assert(rs.contains(c));
    } else {
        assert(stack.len() < t);
        assert(0 <= idx[0] < sets.len());
        let s0 = sets[0];
        let skip1 = sets.skip(1);
        let i0 = idx[0];
        assert(c[stack.len() as int] == selection_of(sets, idx)[0]);
        if i0 == 0 {
            assert forall|i: int| 0 <= i < stack.len() implies stack[i] & s0 == 0u32 by {
                assert(c[i] == stack[i]);
                assert(c[i] & c[stack.len() as int] == 0u32);
            }
            lemma_seq_or_bound(stack, s0);
            let idx2 = idx.skip(1).map_values(|x: int| x - 1);
            assert forall|j: int| 0 <= j < idx2.len() implies 0 <= #[trigger] idx2[j]
                < skip1.len() by {
                assert(idx2[j] == idx[j + 1] - 1);
                assert(idx[0] < idx[j + 1]);
            }
            assert forall|j: int, k: int| 0 <= j < k < idx2.len() implies idx2[j] < idx2[k] by {
                assert(idx2[j] == idx[j + 1] - 1);
                assert(idx2[k] == idx[k + 1] - 1);
                assert(idx[j + 1] < idx[k + 1]);
            }
            let c2 = stack.push(s0) + selection_of(skip1, idx2);
            assert(c2 =~= c) by {
                assert forall|i: int| 0 <= i < c.len() implies c2[i] == c[i] by {
                    if i < stack.len() {
                    } else if i == stack.len() {
                        assert(c2[i] == s0);
                        assert(c[i] == sets[idx[0]]);
                    } else {
                        let j = i - stack.len() - 1;
                        assert(c2[i] == selection_of(skip1, idx2)[j]);
                        assert(selection_of(skip1, idx2)[j] == skip1[idx[j + 1] - 1]);
                        assert(skip1[idx[j + 1] - 1] == sets[idx[j + 1]]);
                        assert(c[i] == selection_of(sets, idx)[j + 1]);
                    }
                }
            }
            lemma_results_exhaustive(skip1, stack.push(s0), t, idx2);
            let branch = results_of(skip1, stack.push(s0), t);
            let w = choose|w: int| 0 <= w < branch.len() && branch[w] == c2;
            assert(rs[w] == c);
            assert(rs.contains(c));
        } else {
            let idx2 = idx.map_values(|x: int| x - 1);
            assert forall|j: int| 0 <= j < idx2.len() implies 0 <= #[trigger] idx2[j]
                < skip1.len() by {
                assert(idx2[j] == idx[j] - 1);
                if j > 0 {
                    assert(idx[0] < idx[j]);
                }
            }
            assert forall|j: int, k: int| 0 <= j < k < idx2.len() implies idx2[j] < idx2[k] by {
                assert(idx2[j] == idx[j] - 1);
                assert(idx2[k] == idx[k] - 1);
            }
            assert(selection_of(skip1, idx2) =~= selection_of(sets, idx)) by {
                assert forall|j: int| 0 <= j < idx.len() implies selection_of(skip1, idx2)[j]
                    == selection_of(sets, idx)[j] by {
                    assert(idx2[j] == idx[j] - 1);
                    if j > 0 {
                        assert(idx[0] < idx[j]);
                    }
                    assert(skip1[idx[j] - 1] == sets[idx[j]]);
                }
            }
            lemma_results_exhaustive(skip1, stack, t, idx2);
            let rest = results_of(skip1, stack, t);
            let w = choose|w: int| 0 <= w < rest.len() && rest[w] == c;
            let branch: Seq<Seq<u32>> = if seq_or(stack) & s0 == 0u32 {
                results_of(skip1, stack.push(s0), t)
            } else {
                Seq::empty()
            };
            assert(rs[branch.len() + w] == c);
            assert(rs.contains(c));
        }
    }
}

/// Every combination the search emits over a pool of well-formed keys of
/// population `p` has a union of population exactly `t * p`.
pub proof fn lemma_results_union_population(sets: Seq<u32>, t: nat, p: nat, k: int)
    requires
        forall|i: int| 0 <= i < sets.len() ==> mask_inv(#[trigger] sets[i]) && pop(sets[i]) == p,
        0 <= k < results_of(sets, Seq::empty(), t).len(),
    ensures
        pop(seq_or(results_of(sets, Seq::empty(), t)[k])) == t * p,
{
    lemma_results_valid(sets, Seq::empty(), t);
    let r = results_of(sets, Seq::empty(), t)[k];
    assert(extends_to(r, Seq::empty(), sets, t));
    assert forall|i: int| 0 <= i < r.len() implies mask_inv(#[trigger] r[i]) && pop(r[i])
        == p by {
        assert(r.contains(r[i]));
        assert(!Seq::<u32>::empty().contains(r[i]));
        assert(sets.contains(r[i]));
        let q = choose|q: int| 0 <= q < sets.len() && sets[q] == r[i];
        assert(mask_inv(sets[q]) && pop(sets[q]) == p);
    }
    lemma_union_population(r, p);
}

/// The union of `n` pairwise-disjoint, well-formed masks of population `p`
/// has population exactly `n * p`.
pub proof fn lemma_union_population(c: Seq<u32>, p: nat)
    requires
        pairwise_disjoint(c),
        forall|i: int| 0 <= i < c.len() ==> mask_inv(#[trigger] c[i]) && pop(c[i]) == p,
    ensures
        pop(seq_or(c)) == c.len() * p,
        mask_inv(seq_or(c)),
    decreases c.len(),
{
    if c.len() == 0 {
        lemma_pop_zero();
        assert(mask_inv(0u32)) by (bit_vector);
    } else {
        let d = c.drop_last();
        let l = c.last();
        assert(pairwise_disjoint(d)) by {
            assert forall|a: int, b: int| 0 <= a < b < d.len() implies d[a] & d[b] == 0u32 by {
                assert(c[a] & c[b] == 0u32);
            }
        }
        assert forall|i: int| 0 <= i < d.len() implies mask_inv(#[trigger] d[i]) && pop(d[i])
            == p by {
            assert(d[i] == c[i]);
        }
        lemma_union_population(d, p);
        assert forall|i: int| 0 <= i < d.len() implies d[i] & l == 0u32 by {
            assert(c[i] & c[c.len() - 1] == 0u32);
        }
        lemma_seq_or_bound(d, l);
        lemma_pop_or_disjoint(seq_or(d), l);
        assert(mask_inv(c[c.len() - 1]) && pop(c[c.len() - 1]) == p);
        assert((c.len() - 1) * p + p == c.len() * p) by (nonlinear_arith);
        let o = seq_or(d);
        assert(mask_inv(o | l)) by (bit_vector)
            requires
                o >> 26u32 == 0u32,
                l >> 26u32 == 0u32,
        ;
    }
}

} // verus!


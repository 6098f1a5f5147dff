//! The permutation-index state machine (Heap's algorithm) and the adapters
//! that compose it with the combination-index state machine.

use vstd::prelude::*;

use crate::combinations::{comb_next, initial_indices, LazyCombinationGenerator};
use vstd::seq_lib::*;
use vstd::set_lib::*;

verus! {

/// A tuple that holds each of the positions `0 .. len` exactly once.
pub open spec fn is_position_permutation(s: Seq<usize>) -> bool {
    &&& forall|i: int| 0 <= i < s.len() ==> (#[trigger] s[i]) < s.len()
    &&& forall|i: int, j: int| 0 <= i < j < s.len() ==> (#[trigger] s[i]) != (#[trigger] s[j])
}

/// The identity permutation `[0, 1, ..., n-1]`.
pub open spec fn identity_indices(n: nat) -> Seq<usize> {
    Seq::new(n, |i: int| i as usize)
}

/// The first position at or above `i` whose counter has not yet reached it,
/// or the tuple's length when every counter is full: the level at which the
/// next swap of Heap's algorithm happens.
pub open spec fn heap_scan(c: Seq<usize>, i: int) -> int
    recommends
        1 <= i,
    decreases c.len() - i,
{
    if i >= c.len() {
        i
    } else if c[i] < i {
        i
    } else {
        heap_scan(c, i + 1)
    }
}

/// The position that the scan's stop is swapped with: the bottom position at
/// even levels, the position the level's counter names at odd ones.
pub open spec fn heap_other(c: Seq<usize>, i: int) -> int {
    if i % 2 == 0 {
        0
    } else {
        c[i] as int
    }
}

/// A tuple with the entries at `a` and `b` exchanged.
pub open spec fn swapped(s: Seq<usize>, a: int, b: int) -> Seq<usize>
    recommends
        0 <= a < s.len(),
        0 <= b < s.len(),
{
    s.update(a, s[b]).update(b, s[a])
}

/// The counters after a step whose scan stopped at `i`: every level below it
/// has completed its rotation and starts over, level `i` advances.
pub open spec fn heap_counters_after(c: Seq<usize>, i: int) -> Seq<usize>
    recommends
        1 <= i < c.len(),
{
    Seq::new(
        c.len(),
        |m: int|
            if 1 <= m < i {
                0usize
            } else if m == i {
                (c[i] + 1) as usize
            } else {
                c[m]
            },
    )
}

/// Produces every ordering of the positions `0 .. n`, one swap at a time,
/// following the iterative form of Heap's algorithm.  The first tuple is the
/// identity; once every ordering has been handed out the generator marks
/// itself done.
pub struct LazyPermutationGenerator {
    indices: Vec<usize>,
    counters: Vec<usize>,
    done: bool,
}

impl View for LazyPermutationGenerator {
    type V = Seq<usize>;

    closed spec fn view(&self) -> Seq<usize> {
        self.indices@
    }
}

impl LazyPermutationGenerator {
    /// Whether the generator has run through every ordering.
    pub closed spec fn marked_done(&self) -> bool {
        self.done
    }

    /// The swap counters, one per level.
    pub closed spec fn counters(&self) -> Seq<usize> {
        self.counters@
    }

    /// The generator's invariant: the tuple is a permutation of `0 .. n` and
    /// each level's counter has not run past its level.
    pub open spec fn wf(&self) -> bool {
        &&& is_position_permutation(self@)
        &&& self.counters().len() == self@.len()
        &&& forall|i: int| 0 <= i < self.counters().len() ==> (#[trigger] self.counters()[i]) <= i
    }

    /// Builds the generator in its initial state: the identity permutation,
    /// every counter at zero.
    pub fn new(n: usize) -> (g: Self)
        ensures
            g.wf(),
            !g.marked_done(),
            g@ == identity_indices(n as nat),
            g.counters() == Seq::new(n as nat, |i: int| 0usize),
    {
        let mut indices: Vec<usize> = Vec::new();
        let mut counters: Vec<usize> = Vec::new();
        let mut i: usize = 0;
        while i < n
            invariant
                i <= n,
                indices@.len() == i,
                counters@.len() == i,
                forall|j: int| 0 <= j < i ==> (#[trigger] indices@[j]) == j,
                forall|j: int| 0 <= j < i ==> (#[trigger] counters@[j]) == 0,
            decreases n - i,
        {
            indices.push(i);
            counters.push(0);
            i += 1;
        }
        proof {
            assert(indices@ =~= identity_indices(n as nat));
            assert(counters@ =~= Seq::new(n as nat, |j: int| 0usize));
        }
        LazyPermutationGenerator { indices, counters, done: false }
    }

    /// Whether every ordering has been produced.
    pub fn is_done(&self) -> (r: bool)
        ensures
            r == self.marked_done(),
    {
        self.done
    }

    /// The current ordering of the positions.
    pub fn indices(&self) -> (r: &Vec<usize>)
        ensures
            r@ == self@,
    {
        &self.indices
    }

    /// Advances to the next ordering: scans for the lowest level whose
    /// counter is not yet full, resetting the completed levels passed over,
    /// then swaps that level either with the bottom (even level) or with the
    /// position its counter names (odd level).  When no level remains, every
    /// ordering has been produced and the generator marks itself done.
    pub fn step(&mut self)
        requires
            old(self).wf(),
        ensures
            final(self).wf(),
            final(self)@.len() == old(self)@.len(),
            heap_scan(old(self).counters(), 1) >= old(self)@.len() ==> {
                &&& final(self).marked_done()
                &&& final(self)@ == old(self)@
                &&& final(self).counters() == Seq::new(old(self)@.len(), |m: int| 0usize)
            },
            heap_scan(old(self).counters(), 1) < old(self)@.len() ==> {
                let i = heap_scan(old(self).counters(), 1);
                &&& final(self).marked_done() == old(self).marked_done()
                &&& final(self)@ == swapped(old(self)@, i, heap_other(old(self).counters(), i))
                &&& final(self).counters() == heap_counters_after(old(self).counters(), i)
            },
    {
        let n = self.indices.len();
        let ghost c0 = self.counters@;
        let ghost s0 = self.indices@;
        let mut i: usize = 1;
        while i < n && self.counters[i] >= i
            invariant
                1 <= i,
                i <= n || (n == 0 && i == 1),
                n == self.indices@.len(),
                n == self.counters@.len(),
                n == c0.len(),
                self.indices@ == s0,
                self.done == old(self).marked_done(),
                forall|j: int| 0 <= j < c0.len() ==> (#[trigger] c0[j]) <= j,
                forall|j: int| 1 <= j < i ==> (#[trigger] self.counters@[j]) == 0,
                forall|j: int|
                    0 <= j < c0.len() && !(1 <= j < i) ==> (#[trigger] self.counters@[j]) == c0[j],
                forall|j: int| 1 <= j < i && j < c0.len() ==> (#[trigger] c0[j]) >= j,
            decreases n - i,
        {
            self.counters[i] = 0;
            i += 1;
        }
        proof {
            lemma_heap_scan_at_least(c0, 1, i as int);
            lemma_heap_scan_props(c0, 1);
            if i < n {
                lemma_heap_scan_at_most(c0, i as int);
                assert(heap_scan(c0, 1) == i);
            } else {
                assert(heap_scan(c0, 1) >= n);
            }
        }
        if i < n {
            let other: usize = if i % 2 == 0 {
                0
            } else {
                self.counters[i]
            };
            proof {
                assert(self.counters@[i as int] == c0[i as int]);
                assert(c0[i as int] < i);
            }
            let a = self.indices[i];
            let b = self.indices[other];
            self.indices[i] = b;
            self.indices[other] = a;
            let c = self.counters[i];
            self.counters[i] = c + 1;
            proof {
                assert(self.indices@ =~= swapped(s0, i as int, heap_other(c0, i as int)));
                assert(self.counters@ =~= heap_counters_after(c0, i as int));
                lemma_swap_preserves_permutation(s0, i as int, heap_other(c0, i as int));
            }
        } else {
            self.done = true;
            proof {
                assert(self.counters@ =~= Seq::new(s0.len(), |m: int| 0usize));
            }
        }
    }
}

/// The scan does not stop while it walks over full counters.
proof fn lemma_heap_scan_at_least(c: Seq<usize>, m: int, i: int)
    requires
        1 <= m <= i,
        forall|j: int| m <= j < i && j < c.len() ==> (#[trigger] c[j]) >= j,
    ensures
        heap_scan(c, m) >= i || heap_scan(c, m) >= c.len(),
    decreases i - m,
{
    if m < i && m < c.len() {
        assert(c[m] >= m);
        lemma_heap_scan_at_least(c, m + 1, i);
    } else if m >= i {
        lemma_heap_scan_props(c, m);
    }
}

/// The scan stops no later than a level whose counter is below it.
proof fn lemma_heap_scan_at_most(c: Seq<usize>, i: int)
    requires
        1 <= i < c.len(),
        c[i] < i,
    ensures
        heap_scan(c, 1) <= i,
{
    lemma_heap_scan_from_at_most(c, 1, i);
}

proof fn lemma_heap_scan_from_at_most(c: Seq<usize>, m: int, i: int)
    requires
        1 <= m <= i < c.len(),
        c[i] < i,
    ensures
        heap_scan(c, m) <= i,
    decreases i - m,
{
    if m < i {
        lemma_heap_scan_from_at_most(c, m + 1, i);
    }
}

/// The scan moves forward over full counters only, and when it stops inside
/// the tuple the counter there still has room.
proof fn lemma_heap_scan_props(c: Seq<usize>, m: int)
    requires
        1 <= m,
    ensures
        heap_scan(c, m) >= m,
        heap_scan(c, m) < c.len() ==> c[heap_scan(c, m)] < heap_scan(c, m),
        forall|j: int| m <= j < heap_scan(c, m) && j < c.len() ==> (#[trigger] c[j]) >= j,
    decreases c.len() - m,
{
    if m >= c.len() {
    } else if c[m] < m {
    } else {
        lemma_heap_scan_props(c, m + 1);
    }
}

/// The factorial.
pub open spec fn fact(n: nat) -> nat
    decreases n,
{
    if n == 0 {
        1
    } else {
        n * fact((n - 1) as nat)
    }
}

/// The swap counters up to (excluding) level `m`, read as a factorial-base
/// number: level `i` carries weight `i!`.
pub open spec fn counter_rank_below(c: Seq<usize>, m: int) -> int
    decreases m,
{
    if m <= 1 {
        0
    } else {
        counter_rank_below(c, m - 1) + c[m - 1] * fact((m - 1) as nat)
    }
}

/// The whole counter tuple read as a factorial-base number.  It counts the
/// orderings the generator has already handed out of the current `n!`.
pub open spec fn counter_rank(c: Seq<usize>) -> int {
    counter_rank_below(c, c.len() as int)
}

proof fn lemma_fact_pos(n: nat)
    ensures
        fact(n) >= 1,
    decreases n,
{
    if n > 0 {
        lemma_fact_pos((n - 1) as nat);
        assert(n * fact((n - 1) as nat) >= fact((n - 1) as nat)) by (nonlinear_arith)
            requires
                n >= 1,
                fact((n - 1) as nat) >= 0,
        ;
    }
}

/// Counters that are all full up to `m` read as the largest `m`-level value.
proof fn lemma_full_prefix_rank(c: Seq<usize>, m: int)
    requires
        1 <= m <= c.len(),
        forall|j: int| 1 <= j < m ==> (#[trigger] c[j]) == j,
    ensures
        counter_rank_below(c, m) == fact(m as nat) - 1,
    decreases m,
{
    if m == 1 {
        assert(fact(0) == 1);
        assert(fact(1) == 1 * fact(0));
    } else {
        lemma_full_prefix_rank(c, m - 1);
        assert(c[m - 1] == m - 1);
        assert((m - 1) * fact((m - 1) as nat) + fact((m - 1) as nat) == m * fact((m - 1) as nat))
            by (nonlinear_arith);
        assert(fact(m as nat) == m * fact((m - 1) as nat));
    }
}

/// Counters that are all zero up to `m` read as zero.
proof fn lemma_zero_prefix_rank(c: Seq<usize>, m: int)
    requires
        m <= c.len(),
        forall|j: int| 1 <= j < m ==> (#[trigger] c[j]) == 0,
    ensures
        counter_rank_below(c, m) == 0,
    decreases m,
{
    if m > 1 {
        lemma_zero_prefix_rank(c, m - 1);
    }
}

/// The rank of well-formed counters stays within `0 .. m!`.
proof fn lemma_rank_below_bound(c: Seq<usize>, m: int)
    requires
        1 <= m <= c.len(),
        forall|j: int| 1 <= j < m ==> (#[trigger] c[j]) <= j,
    ensures
        0 <= counter_rank_below(c, m) <= fact(m as nat) - 1,
    decreases m,
{
    if m <= 1 {
        assert(fact(0) == 1);
        assert(fact(1) == 1 * fact(0));
    } else {
        lemma_rank_below_bound(c, m - 1);
        lemma_fact_pos((m - 1) as nat);
        assert(c[m - 1] * fact((m - 1) as nat) <= (m - 1) * fact((m - 1) as nat))
            by (nonlinear_arith)
            requires
                c[m - 1] <= m - 1,
                fact((m - 1) as nat) >= 1,
        ;
        assert(c[m - 1] * fact((m - 1) as nat) >= 0) by (nonlinear_arith)
            requires
                c[m - 1] >= 0,
                fact((m - 1) as nat) >= 1,
        ;
        assert((m - 1) * fact((m - 1) as nat) + fact((m - 1) as nat) == m * fact((m - 1) as nat))
            by (nonlinear_arith);
        assert(fact(m as nat) == m * fact((m - 1) as nat));
    }
}

/// A counter short of its level caps the rank strictly below the maximum.
proof fn lemma_rank_below_strict(c: Seq<usize>, m: int, j0: int)
    requires
        1 <= j0 < m <= c.len(),
        c[j0] < j0,
        forall|j: int| 1 <= j < m ==> (#[trigger] c[j]) <= j,
    ensures
        counter_rank_below(c, m) < fact(m as nat) - 1,
    decreases m,
{
    lemma_fact_pos((m - 1) as nat);
    if j0 == m - 1 {
        lemma_rank_below_bound(c, m - 1);
        assert(c[m - 1] * fact((m - 1) as nat) <= (m - 2) * fact((m - 1) as nat))
            by (nonlinear_arith)
            requires
                c[m - 1] <= m - 2,
                fact((m - 1) as nat) >= 1,
        ;
        assert((m - 2) * fact((m - 1) as nat) + 2 * fact((m - 1) as nat) == m * fact(
            (m - 1) as nat,
        )) by (nonlinear_arith);
        assert(fact(m as nat) == m * fact((m - 1) as nat));
    } else {
        lemma_rank_below_strict(c, m - 1, j0);
        assert(c[m - 1] * fact((m - 1) as nat) <= (m - 1) * fact((m - 1) as nat))
            by (nonlinear_arith)
            requires
                c[m - 1] <= m - 1,
                fact((m - 1) as nat) >= 1,
        ;
        assert((m - 1) * fact((m - 1) as nat) + fact((m - 1) as nat) == m * fact((m - 1) as nat))
            by (nonlinear_arith);
        assert(fact(m as nat) == m * fact((m - 1) as nat));
    }
}

/// Two counter tuples that agree strictly below `m` and whose ranks below a
/// point `m0 <= m` differ by one keep that difference at `m`.
proof fn lemma_rank_below_congruent(a: Seq<usize>, b: Seq<usize>, m0: int, m: int, d: int)
    requires
        1 <= m0 <= m,
        m <= a.len(),
        m <= b.len(),
        forall|j: int| m0 <= j < m ==> a[j] == #[trigger] b[j],
        counter_rank_below(a, m0) == counter_rank_below(b, m0) + d,
    ensures
        counter_rank_below(a, m) == counter_rank_below(b, m) + d,
    decreases m - m0,
{
    if m > m0 {
        lemma_rank_below_congruent(a, b, m0, m - 1, d);
        assert(a[m - 1] == b[m - 1]);
    }
}

/// The counters are a factorial-base odometer: each step of the generator
/// that does not finish the current subset advances their rank by exactly
/// one.
pub proof fn lemma_heap_step_rank(c: Seq<usize>)
    requires
        c.len() <= usize::MAX,
        forall|j: int| 0 <= j < c.len() ==> (#[trigger] c[j]) <= j,
        heap_scan(c, 1) < c.len(),
    ensures
        counter_rank(heap_counters_after(c, heap_scan(c, 1))) == counter_rank(c) + 1,
{
    let i = heap_scan(c, 1);
    let d = heap_counters_after(c, i);
    let n = c.len() as int;
    lemma_heap_scan_props(c, 1);
    assert(1 <= i);
    assert(c[i] < i);
    assert forall|j: int| 1 <= j < i implies (#[trigger] c[j]) == j by {
        assert(c[j] >= j);
        assert(c[j] <= j);
    }
    lemma_full_prefix_rank(c, i);
    lemma_zero_prefix_rank(d, i);
    lemma_fact_pos(i as nat);
    assert(counter_rank_below(d, i + 1) == counter_rank_below(d, i) + d[i] * fact(i as nat));
    assert(counter_rank_below(c, i + 1) == counter_rank_below(c, i) + c[i] * fact(i as nat));
    assert(d[i] == c[i] + 1);
    assert((c[i] + 1) * fact(i as nat) == c[i] * fact(i as nat) + fact(i as nat))
        by (nonlinear_arith);
    assert(counter_rank_below(d, i + 1) == counter_rank_below(c, i + 1) + 1);
    assert forall|j: int| i + 1 <= j < n implies d[j] == #[trigger] c[j] by {}
    lemma_rank_below_congruent(d, c, i + 1, n, 1);
}

/// The rank of well-formed counters of `n` levels runs inside `0 .. n!`.
pub proof fn lemma_heap_rank_range(c: Seq<usize>)
    requires
        c.len() >= 1,
        forall|j: int| 0 <= j < c.len() ==> (#[trigger] c[j]) <= j,
    ensures
        0 <= counter_rank(c) <= fact(c.len()) - 1,
{
    lemma_rank_below_bound(c, c.len() as int);
}

/// All-zero counters rank zero: a fresh generator starts its count at the
/// beginning.
pub proof fn lemma_heap_initial_rank(c: Seq<usize>)
    requires
        forall|j: int| 0 <= j < c.len() ==> (#[trigger] c[j]) == 0,
    ensures
        counter_rank(c) == 0,
{
    lemma_zero_prefix_rank(c, c.len() as int);
}

/// The generator finishes exactly at the top of the count: the scan runs off
/// the end — the step that marks the generator done — precisely when the
/// rank has reached `n! - 1`.  Starting from rank zero and advancing by one
/// per step, the generator therefore hands out exactly `n!` orderings.
pub proof fn lemma_heap_finishes_at_top_rank(c: Seq<usize>)
    requires
        c.len() >= 1,
        forall|j: int| 0 <= j < c.len() ==> (#[trigger] c[j]) <= j,
    ensures
        heap_scan(c, 1) >= c.len() <==> counter_rank(c) == fact(c.len()) - 1,
{
    let n = c.len() as int;
    lemma_heap_scan_props(c, 1);
    if heap_scan(c, 1) >= n {
        assert forall|j: int| 1 <= j < n implies (#[trigger] c[j]) == j by {
            assert(c[j] >= j);
            assert(c[j] <= j);
        }
        lemma_full_prefix_rank(c, n);
    } else {
        let i = heap_scan(c, 1);
        if i >= 1 && i < n {
            lemma_rank_below_strict(c, n, i);
        }
    }
}

/// Exchanging two entries of a permutation of `0 .. n` leaves a permutation
/// of `0 .. n`.
pub proof fn lemma_swap_preserves_permutation(s: Seq<usize>, a: int, b: int)
    requires
        is_position_permutation(s),
        0 <= a < s.len(),
        0 <= b < s.len(),
    ensures
        is_position_permutation(swapped(s, a, b)),
{
    let t = swapped(s, a, b);
    assert forall|i: int| 0 <= i < t.len() implies (#[trigger] t[i]) < t.len() by {
        assert(s[i] < s.len());
        assert(s[a] < s.len());
        assert(s[b] < s.len());
    }
    assert forall|i: int, j: int| 0 <= i < j < t.len() implies (#[trigger] t[i]) != (#[trigger] t[j]) by {
        assert(s[i] != s[j]);
        assert(t[i] == if i == b { s[a] } else if i == a { s[b] } else { s[i] });
        assert(t[j] == if j == b { s[a] } else if j == a { s[b] } else { s[j] });
    }
}

/// The outer combination's indices rearranged by the inner permutation: the
/// index tuple a composite pull hands out.
pub open spec fn composed_indices(comb: Seq<usize>, perm: Seq<usize>) -> Seq<usize>
    recommends
        perm.len() == comb.len(),
        is_position_permutation(perm),
{
    Seq::new(comb.len(), |i: int| comb[perm[i] as int])
}

/// Whether the counters say every ordering of the current subset has been
/// handed out, so that the next step retires the inner generator.
pub open spec fn last_ordering(c: Seq<usize>) -> bool {
    heap_scan(c, 1) >= c.len()
}

/// The piece the two permutation adapters share: an outer combination
/// generator choosing the subset, an inner permutation generator ordering
/// it, and the "check, snapshot, advance" discipline of one pull.
struct State {
    comb_gen: LazyCombinationGenerator,
    perm_gen: LazyPermutationGenerator,
}

impl State {
    spec fn wf(&self) -> bool {
        &&& self.comb_gen.wf()
        &&& self.perm_gen.wf()
        &&& self.perm_gen@.len() == self.comb_gen@.len()
        &&& !self.perm_gen.marked_done()
    }

    fn new(k: usize) -> (s: Self)
        ensures
            s.wf(),
            !s.comb_gen.marked_done(),
            s.comb_gen@ == initial_indices(k as nat),
            s.perm_gen@ == identity_indices(k as nat),
            s.perm_gen.counters() == Seq::new(k as nat, |m: int| 0usize),
    {
        State {
            comb_gen: LazyCombinationGenerator::new(k),
            perm_gen: LazyPermutationGenerator::new(k),
        }
    }

    fn max_index(&self) -> (r: Option<usize>)
        ensures
            r == self.comb_gen.spec_max_index(),
    {
        self.comb_gen.max_index()
    }

    /// One pull against a domain of `item_count` items: either the outer
    /// generator is exhausted for that domain and nothing moves, or the
    /// composed tuple is handed out, the inner generator advances, and — once
    /// the subset's orderings are spent — a fresh inner generator starts over
    /// the next subset.
    fn get_and_step(&mut self, item_count: usize) -> (r: Option<Vec<usize>>)
        requires
            old(self).wf(),
        ensures
            final(self).wf(),
            old(self).comb_gen.exhausted_at(item_count as int) ==> r is None && *final(self)
                == *old(self),
            !old(self).comb_gen.exhausted_at(item_count as int) ==> {
                let k = old(self).comb_gen@.len();
                &&& r is Some
                &&& r.unwrap()@ == composed_indices(old(self).comb_gen@, old(self).perm_gen@)
                &&& (if last_ordering(old(self).perm_gen.counters()) {
                    &&& final(self).perm_gen@ == identity_indices(k)
                    &&& final(self).perm_gen.counters() == Seq::new(k, |m: int| 0usize)
                    &&& (k == 0 ==> final(self).comb_gen@ == old(self).comb_gen@ && final(self).comb_gen.marked_done())
                    &&& (k > 0 ==> final(self).comb_gen@ == comb_next(old(self).comb_gen@) && !final(self).comb_gen.marked_done())
                } else {
                    let i = heap_scan(old(self).perm_gen.counters(), 1);
                    &&& final(self).comb_gen@ == old(self).comb_gen@
                    &&& final(self).comb_gen.marked_done() == old(self).comb_gen.marked_done()
                    &&& final(self).perm_gen@ == swapped(old(self).perm_gen@, i, heap_other(old(self).perm_gen.counters(), i))
                    &&& final(self).perm_gen.counters() == heap_counters_after(old(self).perm_gen.counters(), i)
                })
            },
    {
        if self.comb_gen.is_done(item_count) {
            None
        } else {
            let comb = self.comb_gen.indices();
            let perm = self.perm_gen.indices();
            let k = comb.len();
            let mut snapshot: Vec<usize> = Vec::new();
            let mut i: usize = 0;
            while i < k
                invariant
                    i <= k,
                    k == comb@.len(),
                    k == perm@.len(),
                    is_position_permutation(perm@),
                    snapshot@.len() == i,
                    forall|j: int|
                        0 <= j < i ==> (#[trigger] snapshot@[j]) == comb@[perm@[j] as int],
                decreases k - i,
            {
                snapshot.push(comb[perm[i]]);
                i += 1;
            }
            proof {
                assert(snapshot@ =~= composed_indices(self.comb_gen@, self.perm_gen@));
            }
            self.perm_gen.step();
            if self.perm_gen.is_done() {
                self.perm_gen = LazyPermutationGenerator::new(k);
                self.comb_gen.step();
            }
            Some(snapshot)
        }
    }
}

/// Pulls width-`k` permutations of the values pushed into it so far, cloning
/// the chosen values into each output tuple: every ordering of a subset is
/// handed out before the next subset begins.
///
/// The element source stays with the caller: [`Self::push`] hands the
/// adapter one more element, [`Self::missing_items`] says how many more the
/// current subset needs, and [`Self::next`] yields the next tuple once
/// enough are buffered.  A pull that comes up empty leaves the adapter
/// exactly as it was, so enumeration resumes seamlessly when the source
/// yields more.
pub struct Permutations<T> {
    items: Vec<T>,
    state: State,
}

impl<T> Permutations<T> {
    /// The values buffered so far, in arrival order.
    pub closed spec fn buffered(&self) -> Seq<T> {
        self.items@
    }

    /// The subset the next pull draws from, as an ascending index tuple.
    pub closed spec fn comb_indices(&self) -> Seq<usize> {
        self.state.comb_gen@
    }

    /// The ordering the next pull applies to the subset.
    pub closed spec fn perm_indices(&self) -> Seq<usize> {
        self.state.perm_gen@
    }

    /// The inner generator's swap counters.
    pub closed spec fn perm_counters(&self) -> Seq<usize> {
        self.state.perm_gen.counters()
    }

    /// Whether the outer generator has marked itself done.
    pub closed spec fn marked_done(&self) -> bool {
        self.state.comb_gen.marked_done()
    }

    /// The width every output tuple has.
    pub open spec fn width(&self) -> nat {
        self.comb_indices().len()
    }

    /// The adapter's invariant: the subset tuple ascends, the ordering is a
    /// permutation of its positions, and the subset never runs more than one
    /// position past the buffer.
    pub closed spec fn wf(&self) -> bool {
        &&& self.state.wf()
        &&& self.comb_indices().len() < usize::MAX
        &&& self.comb_indices().len() > 0 ==> (self.comb_indices().last()
            <= self.comb_indices().len() - 1 || self.comb_indices().last()
            <= self.buffered().len())
    }

    /// Whether a pull right now would come up empty: the outer generator is
    /// done, or the buffer is too short for the current subset.  More pushes
    /// can clear the second case but never the first.
    pub open spec fn exhausted_now(&self) -> bool {
        self.marked_done() || (self.width() > 0 && self.comb_indices().last() as int
            >= self.buffered().len())
    }

    /// Builds an adapter of width `k` with an empty buffer.
    pub fn new(k: usize) -> (c: Self)
        requires
            k < usize::MAX,
        ensures
            c.wf(),
            !c.marked_done(),
            c.buffered() == Seq::<T>::empty(),
            c.comb_indices() == initial_indices(k as nat),
            c.perm_indices() == identity_indices(k as nat),
            c.perm_counters() == Seq::new(k as nat, |m: int| 0usize),
    {
        let c = Permutations { items: Vec::new(), state: State::new(k) };
        proof {
            crate::combinations::lemma_ascending_ge_index(c.comb_indices());
        }
        c
    }

    /// Hands the adapter one more element from the source.
    pub fn push(&mut self, item: T)
        requires
            old(self).wf(),
        ensures
            final(self).wf(),
            final(self).buffered() == old(self).buffered().push(item),
            final(self).comb_indices() == old(self).comb_indices(),
            final(self).perm_indices() == old(self).perm_indices(),
            final(self).perm_counters() == old(self).perm_counters(),
            final(self).marked_done() == old(self).marked_done(),
    {
        self.items.push(item);
    }

    /// How many more elements the buffer needs before the current subset can
    /// be handed out: zero when a pull can already be answered or the width
    /// is zero.
    pub fn missing_items(&self) -> (r: usize)
        requires
            self.wf(),
        ensures
            self.width() == 0 ==> r == 0,
            self.width() > 0 ==> r == if self.comb_indices().last() as int
                >= self.buffered().len() {
                self.comb_indices().last() + 1 - self.buffered().len()
            } else {
                0
            },
    {
        match self.state.max_index() {
            None => 0,
            Some(m) => {
                let len = self.items.len();
                if m < len {
                    0
                } else {
                    m - len + 1
                }
            },
        }
    }

    /// One pull.  When the buffer satisfies the current subset, the subset's
    /// values are cloned out in the inner generator's current order and the
    /// generators advance; otherwise nothing changes and the pull reports
    /// empty — which means exhaustion if the source has ended, or "not yet"
    /// if it can still yield.
    #[verifier::rlimit(40)]
    pub fn next(&mut self) -> (r: Option<Vec<T>>) where T: Clone
        requires
            old(self).wf(),
        ensures
            final(self).wf(),
            final(self).buffered() == old(self).buffered(),
            old(self).exhausted_now() ==> r is None && *final(self) == *old(self),
            !old(self).exhausted_now() ==> {
                let k = old(self).width();
                &&& r is Some
                &&& r.unwrap()@.len() == k
                &&& forall|i: int|
                    0 <= i < k ==> cloned::<T>(
                        old(self).buffered()[composed_indices(
                            old(self).comb_indices(),
                            old(self).perm_indices(),
                        )[i] as int],
                        #[trigger] r.unwrap()@[i],
                    )
                &&& (if last_ordering(old(self).perm_counters()) {
                    &&& final(self).perm_indices() == identity_indices(k)
                    &&& final(self).perm_counters() == Seq::new(k, |m: int| 0usize)
                    &&& (k == 0 ==> final(self).comb_indices() == old(self).comb_indices()
                        && final(self).marked_done())
                    &&& (k > 0 ==> final(self).comb_indices() == comb_next(old(self).comb_indices())
                        && !final(self).marked_done())
                } else {
                    let i = heap_scan(old(self).perm_counters(), 1);
                    &&& final(self).comb_indices() == old(self).comb_indices()
                    &&& final(self).marked_done() == old(self).marked_done()
                    &&& final(self).perm_indices() == swapped(
                        old(self).perm_indices(),
                        i,
                        heap_other(old(self).perm_counters(), i),
                    )
                    &&& final(self).perm_counters() == heap_counters_after(
                        old(self).perm_counters(),
                        i,
                    )
                })
            },
    {
        let ghost pre = *self;
        let cnt = self.items.len();
        match self.state.get_and_step(cnt) {
            None => None,
            Some(idx) => {
                proof {
                    if pre.width() > 0 {
                        crate::combinations::lemma_comb_next_ascending(pre.comb_indices());
                        assert forall|j: int| 0 <= j < idx@.len() implies (#[trigger] idx@[j])
                            < cnt by {
                            let pj = pre.perm_indices()[j] as int;
                            crate::combinations::lemma_ascending_gap(
                                pre.comb_indices(),
                                pj,
                                idx@.len() - 1,
                            );
                        }
                    }
                }
                let mut out: Vec<T> = Vec::new();
                let mut i: usize = 0;
                while i < idx.len()
                    invariant
                        i <= idx@.len(),
                        out@.len() == i,
                        self.items@ == pre.items@,
                        forall|j: int|
                            0 <= j < idx@.len() ==> (#[trigger] idx@[j]) < self.items@.len(),
                        forall|j: int|
                            0 <= j < i ==> cloned::<T>(
                                self.items@[idx@[j] as int],
                                #[trigger] out@[j],
                            ),
                    decreases idx@.len() - i,
                {
                    let e = &self.items[idx[i]];
                    out.push(e.clone());
                    i += 1;
                }
                Some(out)
            },
        }
    }
}

/// Pulls width-`k` permutations of a fixed slice's elements, handing out
/// references into the slice: every ordering of a subset is handed out
/// before the next subset begins.  The domain never grows, so a pull that
/// comes up empty means the enumeration is over for good.
pub struct SlicePermutations<'a, T> {
    items: &'a [T],
    state: State,
}

impl<'a, T> SlicePermutations<'a, T> {
    /// The slice the tuples draw from.
    pub closed spec fn domain(&self) -> Seq<T> {
        self.items@
    }

    /// The subset the next pull draws from, as an ascending index tuple.
    pub closed spec fn comb_indices(&self) -> Seq<usize> {
        self.state.comb_gen@
    }

    /// The ordering the next pull applies to the subset.
    pub closed spec fn perm_indices(&self) -> Seq<usize> {
        self.state.perm_gen@
    }

    /// The inner generator's swap counters.
    pub closed spec fn perm_counters(&self) -> Seq<usize> {
        self.state.perm_gen.counters()
    }

    /// Whether the outer generator has marked itself done.
    pub closed spec fn marked_done(&self) -> bool {
        self.state.comb_gen.marked_done()
    }

    /// The width every output tuple has.
    pub open spec fn width(&self) -> nat {
        self.comb_indices().len()
    }

    /// The adapter's invariant: the subset tuple ascends and the ordering is
    /// a permutation of its positions.
    pub closed spec fn wf(&self) -> bool {
        self.state.wf()
    }

    /// Whether a pull right now would come up empty; the domain is fixed, so
    /// this never reverts to false.
    pub open spec fn exhausted_now(&self) -> bool {
        self.marked_done() || (self.width() > 0 && self.comb_indices().last() as int
            >= self.domain().len())
    }

    /// Builds an adapter of width `k` over the given slice.
    pub fn new(items: &'a [T], k: usize) -> (c: Self)
        ensures
            c.wf(),
            !c.marked_done(),
            c.domain() == items@,
            c.comb_indices() == initial_indices(k as nat),
            c.perm_indices() == identity_indices(k as nat),
            c.perm_counters() == Seq::new(k as nat, |m: int| 0usize),
    {
        SlicePermutations { items, state: State::new(k) }
    }

    /// One pull: the next permutation of a subset of slice elements, as
    /// references in the inner generator's current order, or `None` once all
    /// have been produced.
    pub fn next(&mut self) -> (r: Option<Vec<&'a T>>)
        requires
            old(self).wf(),
        ensures
            final(self).wf(),
            final(self).domain() == old(self).domain(),
            old(self).exhausted_now() ==> r is None && *final(self) == *old(self),
            !old(self).exhausted_now() ==> {
                let k = old(self).width();
                &&& r is Some
                &&& r.unwrap()@.len() == k
                &&& forall|i: int|
                    0 <= i < k ==> *(#[trigger] r.unwrap()@[i]) == old(self).domain()[composed_indices(
                        old(self).comb_indices(),
                        old(self).perm_indices(),
                    )[i] as int]
                &&& (if last_ordering(old(self).perm_counters()) {
                    &&& final(self).perm_indices() == identity_indices(k)
                    &&& final(self).perm_counters() == Seq::new(k, |m: int| 0usize)
                    &&& (k == 0 ==> final(self).comb_indices() == old(self).comb_indices()
                        && final(self).marked_done())
                    &&& (k > 0 ==> final(self).comb_indices() == comb_next(old(self).comb_indices())
                        && !final(self).marked_done())
                } else {
                    let i = heap_scan(old(self).perm_counters(), 1);
                    &&& final(self).comb_indices() == old(self).comb_indices()
                    &&& final(self).marked_done() == old(self).marked_done()
                    &&& final(self).perm_indices() == swapped(
                        old(self).perm_indices(),
                        i,
                        heap_other(old(self).perm_counters(), i),
                    )
                    &&& final(self).perm_counters() == heap_counters_after(
                        old(self).perm_counters(),
                        i,
                    )
                })
            },
    {
        let ghost pre = *self;
        let items = self.items;
        match self.state.get_and_step(items.len()) {
            None => None,
            Some(idx) => {
                proof {
                    if pre.width() > 0 {
                        assert forall|j: int| 0 <= j < idx@.len() implies (#[trigger] idx@[j])
                            < items@.len() by {
                            let pj = pre.perm_indices()[j] as int;
                            crate::combinations::lemma_ascending_gap(
                                pre.comb_indices(),
                                pj,
                                idx@.len() - 1,
                            );
                        }
                    }
                }
                let mut out: Vec<&'a T> = Vec::new();
                let mut i: usize = 0;
                while i < idx.len()
                    invariant
                        i <= idx@.len(),
                        out@.len() == i,
                        forall|j: int| 0 <= j < idx@.len() ==> (#[trigger] idx@[j]) < items@.len(),
                        forall|j: int|
                            0 <= j < i ==> *(#[trigger] out@[j]) == items@[idx@[j] as int],
                    decreases idx@.len() - i,
                {
                    out.push(&items[idx[i]]);
                    i += 1;
                }
                Some(out)
            },
        }
    }
}

/// A permutation tuple of `0 .. n` misses no position: whatever position one
/// looks for, some slot holds it — together with the invariant that slots
/// are pairwise distinct, each ordering the generator hands out visits every
/// position exactly once.
pub proof fn lemma_permutation_positions_complete(s: Seq<usize>, v: int)
    requires
        is_position_permutation(s),
        0 <= v < s.len(),
    ensures
        exists|i: int| 0 <= i < s.len() && s[i] == v,
{
    let n = s.len() as int;
    let si = s.map_values(|x: usize| x as int);
    assert(si.no_duplicates()) by {
        assert forall|i: int, j: int|
            0 <= i < si.len() && 0 <= j < si.len() && i != j implies si[i] != si[j] by {
            if i < j {
                assert(s[i] != s[j]);
            } else {
                assert(s[j] != s[i]);
            }
        }
    }
    si.unique_seq_to_set();
    if !(exists|i: int| 0 <= i < s.len() && s[i] == v) {
        let small = set_int_range(0, n).remove(v);
        lemma_int_range(0, n);
        assert(si.to_set().subset_of(small)) by {
            assert forall|x: int| si.to_set().contains(x) implies small.contains(x) by {
                let i = choose|i: int| 0 <= i < si.len() && si[i] == x;
                assert(s[i] < s.len());
                assert(s[i] != v);
            }
        }
        lemma_len_subset(si.to_set(), small);
        assert(false);
    }
}

/// The composite tuple selects each chosen index exactly once: rearranging
/// an ascending subset by an ordering of its positions yields pairwise
/// distinct indices drawn from the subset.
pub proof fn lemma_composed_selects_subset(comb: Seq<usize>, perm: Seq<usize>)
    requires
        crate::combinations::is_ascending(comb),
        is_position_permutation(perm),
        perm.len() == comb.len(),
    ensures
        composed_indices(comb, perm).len() == comb.len(),
        forall|i: int, j: int|
            0 <= i < j < comb.len() ==> composed_indices(comb, perm)[i] != composed_indices(
                comb,
                perm,
            )[j],
        forall|i: int|
            0 <= i < comb.len() ==> composed_indices(comb, perm)[i] == comb[perm[i] as int],
{
    let t = composed_indices(comb, perm);
    assert forall|i: int, j: int| 0 <= i < j < comb.len() implies t[i] != t[j] by {
        let pi = perm[i] as int;
        let pj = perm[j] as int;
        assert(perm[i] != perm[j]);
        if pi < pj {
            crate::combinations::lemma_ascending_gap(comb, pi, pj);
        } else {
            crate::combinations::lemma_ascending_gap(comb, pj, pi);
        }
    }
}

/// A width-zero composite adapter owes exactly one (empty) tuple: it is
/// exhausted precisely once the outer generator has marked that tuple
/// spent, and the buffer's content never matters.
pub proof fn lemma_empty_width_permutations_exhaustion<T>(c: &Permutations<T>)
    requires
        c.width() == 0,
    ensures
        c.exhausted_now() <==> c.marked_done(),
{
}

/// A buffer shorter than the width can never satisfy a pull: the
/// sequence-backed permutation adapter reports "nothing yet" from the first
/// pull onward until enough elements arrive.
pub proof fn lemma_permutations_short_buffer_exhausts<T>(c: &Permutations<T>)
    requires
        c.wf(),
        c.buffered().len() < c.width(),
    ensures
        c.exhausted_now(),
{
    crate::combinations::lemma_exhausted_when_domain_short(
        c.state.comb_gen,
        c.buffered().len() as int,
    );
}

/// A slice shorter than the width yields no permutation at all: the
/// slice-backed adapter reports exhaustion from the first pull onward.
pub proof fn lemma_slice_permutations_short_domain_exhausts<'a, T>(c: &SlicePermutations<'a, T>)
    requires
        c.wf(),
        c.domain().len() < c.width(),
    ensures
        c.exhausted_now(),
{
    crate::combinations::lemma_exhausted_when_domain_short(
        c.state.comb_gen,
        c.domain().len() as int,
    );
}

} // verus!

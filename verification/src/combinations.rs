//! The combination-index state machine and the adapters that apply it to a
//! buffered sequence or to a borrowed slice.

use vstd::prelude::*;

verus! {

/// A sequence of indices that strictly increases from left to right.
pub open spec fn is_ascending(s: Seq<usize>) -> bool {
    forall|i: int| 0 <= i && i + 1 < s.len() ==> (#[trigger] s[i]) < s[i + 1]
}

/// The tuple `[0, 1, ..., k-1]`: the first combination of width `k`.
pub open spec fn initial_indices(k: nat) -> Seq<usize> {
    Seq::new(k, |i: int| i as usize)
}

/// The position at which the successor computation increments, scanning from
/// `i` upward: the first index not immediately followed by its successor.
pub open spec fn comb_pivot_from(s: Seq<usize>, i: int) -> int
    recommends
        0 <= i < s.len(),
    decreases s.len() - i,
{
    if i + 1 >= s.len() {
        i
    } else if s[i] + 1 == s[i + 1] {
        comb_pivot_from(s, i + 1)
    } else {
        i
    }
}

/// The pivot of a whole tuple: where its successor differs from it.
pub open spec fn comb_pivot(s: Seq<usize>) -> int {
    comb_pivot_from(s, 0)
}

/// The successor of an ascending index tuple in combinatorial-number-system
/// order: the run of consecutive indices at the bottom collapses back to
/// `[0, 1, ...]` and the first index above the run grows by one.
pub open spec fn comb_next(s: Seq<usize>) -> Seq<usize>
    recommends
        s.len() > 0,
{
    let p = comb_pivot(s);
    Seq::new(
        s.len(),
        |j: int|
            if j < p {
                j as usize
            } else if j == p {
                (s[p] + 1) as usize
            } else {
                s[j]
            },
    )
}

/// Colexicographic order on equal-length index tuples: tuples are compared by
/// their last elements first.  This is the order in which combinations of a
/// growing domain are produced.
pub open spec fn colex_lt(a: Seq<usize>, b: Seq<usize>) -> bool
    recommends
        a.len() == b.len(),
    decreases a.len(),
{
    if a.len() == 0 || b.len() == 0 {
        false
    } else if a.last() != b.last() {
        a.last() < b.last()
    } else {
        colex_lt(a.drop_last(), b.drop_last())
    }
}

/// Non-strict colexicographic order.
pub open spec fn colex_le(a: Seq<usize>, b: Seq<usize>) -> bool {
    a == b || colex_lt(a, b)
}

/// Produces successive width-`k` combinations of a domain of growing size, as
/// strictly ascending index tuples, in colexicographic order.
///
/// The generator holds no domain size of its own: [`Self::is_done`] is judged
/// against whatever domain size the caller passes, so a generator that has
/// outgrown today's domain resumes correctly once the domain has grown.
pub struct LazyCombinationGenerator {
    indices: Vec<usize>,
    done: bool,
}

impl View for LazyCombinationGenerator {
    type V = Seq<usize>;

    closed spec fn view(&self) -> Seq<usize> {
        self.indices@
    }
}

impl LazyCombinationGenerator {
    /// Whether the generator has marked itself exhausted.  Only a width-zero
    /// generator ever does; for positive widths exhaustion is judged against
    /// the domain size alone.
    pub closed spec fn marked_done(&self) -> bool {
        self.done
    }

    /// The generator's invariant: its tuple ascends, and only the width-zero
    /// generator can be marked done.
    pub open spec fn wf(&self) -> bool {
        &&& is_ascending(self@)
        &&& (self.marked_done() ==> self@.len() == 0)
    }

    /// The largest index the current tuple holds, as a spec value.
    pub open spec fn spec_max_index(&self) -> Option<usize> {
        if self@.len() == 0 {
            None
        } else {
            Some(self@.last())
        }
    }

    /// Whether enumeration is over when the domain holds `item_count` items:
    /// either the generator marked itself done, or the current tuple reaches
    /// beyond the domain.  The latter can flip back to "not done" if the
    /// domain grows.
    pub open spec fn exhausted_at(&self, item_count: int) -> bool {
        self.marked_done() || (self@.len() > 0 && self@.last() >= item_count)
    }

    /// Builds the generator in its initial state, holding `[0, 1, ..., k-1]`.
    pub fn new(k: usize) -> (g: Self)
        ensures
            g.wf(),
            !g.marked_done(),
            g@ == initial_indices(k as nat),
    {
        let mut indices: Vec<usize> = Vec::new();
        let mut i: usize = 0;
        while i < k
            invariant
                i <= k,
                indices@.len() == i,
                forall|j: int| 0 <= j < i ==> indices@[j] == j,
            decreases k - i,
        {
            indices.push(i);
            i += 1;
        }
        proof {
            assert(indices@ =~= initial_indices(k as nat));
        }
        LazyCombinationGenerator { indices, done: false }
    }

    /// The largest index of the current tuple, `None` iff the width is zero.
    pub fn max_index(&self) -> (r: Option<usize>)
        ensures
            r == self.spec_max_index(),
    {
        if self.indices.len() == 0 {
            None
        } else {
            Some(self.indices[self.indices.len() - 1])
        }
    }

    /// Whether enumeration is over for a domain of `item_count` items.
    pub fn is_done(&self, item_count: usize) -> (r: bool)
        ensures
            r == self.exhausted_at(item_count as int),
    {
        if self.done {
            true
        } else if self.indices.len() == 0 {
            false
        } else {
            self.indices[self.indices.len() - 1] >= item_count
        }
    }

    /// The current index tuple.
    pub fn indices(&self) -> (r: &Vec<usize>)
        ensures
            r@ == self@,
    {
        &self.indices
    }

    /// Advances to the successor tuple: collapses the bottom run of
    /// consecutive indices and increments the first index above it.  A
    /// width-zero generator instead marks itself done, its one (empty)
    /// combination spent.
    pub fn step(&mut self)
        requires
            old(self).wf(),
            old(self)@.len() > 0 ==> old(self)@.last() < usize::MAX,
        ensures
            final(self).wf(),
            old(self)@.len() == 0 ==> final(self)@ == old(self)@ && final(self).marked_done(),
            old(self)@.len() > 0 ==> final(self)@ == comb_next(old(self)@) && final(self).marked_done() == old(self).marked_done(),
    {
        let k = self.indices.len();
        if k == 0 {
            self.done = true;
        } else {
            let ghost s0 = self@;
            proof {
                assert forall|j: int| 0 <= j < k - 1 implies (#[trigger] s0[j]) < s0[k - 1] by {
                    lemma_ascending_gap(s0, j, k - 1);
                }
            }
            let mut i: usize = 0;
            while i + 1 < k && self.indices[i] + 1 == self.indices[i + 1]
                invariant
                    0 <= i < k,
                    k == self.indices@.len(),
                    k == s0.len(),
                    is_ascending(s0),
                    s0[k - 1] < usize::MAX,
                    forall|j: int| 0 <= j < k - 1 ==> (#[trigger] s0[j]) < s0[k - 1],
                    self.done == false,
                    forall|j: int| 0 <= j < i ==> (#[trigger] self.indices@[j]) == j,
                    forall|j: int| i <= j < k ==> (#[trigger] self.indices@[j]) == s0[j],
                    forall|j: int| 0 <= j < i ==> (#[trigger] s0[j]) + 1 == s0[j + 1],
                decreases k - i,
            {
                self.indices[i] = i;
                i += 1;
            }
            proof {
                lemma_pivot_from_props(s0, 0);
                lemma_pivot_at_least(s0, i as int);
                if comb_pivot(s0) > i {
                    assert(s0[i as int] + 1 == s0[i as int + 1]);
                }
                assert(comb_pivot(s0) == i);
            }
            let v = self.indices[i];
            self.indices[i] = v + 1;
            proof {
                assert(self.indices@ =~= comb_next(s0));
                lemma_comb_next_ascending(s0);
            }
        }
    }
}

/// Any stretch of an ascending tuple grows at least as fast as the indices:
/// `s[j] - s[i] >= j - i`.
pub proof fn lemma_ascending_gap(s: Seq<usize>, i: int, j: int)
    requires
        is_ascending(s),
        0 <= i <= j < s.len(),
    ensures
        s[j] - s[i] >= j - i,
    decreases j - i,
{
    if i < j {
        lemma_ascending_gap(s, i, j - 1);
        assert(s[j - 1] < s[j]);
    }
}

/// Every entry of an ascending tuple is at least its own position.
pub proof fn lemma_ascending_ge_index(s: Seq<usize>)
    requires
        is_ascending(s),
    ensures
        forall|i: int| 0 <= i < s.len() ==> #[trigger] s[i] >= i,
{
    assert forall|i: int| 0 <= i < s.len() implies #[trigger] s[i] >= i by {
        lemma_ascending_gap(s, 0, i);
    }
}

/// The pivot scan lands inside the tuple, everything below it is a run of
/// consecutive indices, and the run stops there.
proof fn lemma_pivot_from_props(s: Seq<usize>, i: int)
    requires
        0 <= i < s.len(),
    ensures
        i <= comb_pivot_from(s, i) < s.len(),
        forall|j: int| i <= j < comb_pivot_from(s, i) ==> #[trigger] s[j] + 1 == s[j + 1],
        comb_pivot_from(s, i) + 1 == s.len() || s[comb_pivot_from(s, i)] + 1 != s[comb_pivot_from(
            s,
            i,
        ) + 1],
    decreases s.len() - i,
{
    if i + 1 >= s.len() {
    } else if s[i] + 1 == s[i + 1] {
        lemma_pivot_from_props(s, i + 1);
    }
}

/// A run of consecutive indices below position `i` pushes the pivot to `i` or
/// beyond.
proof fn lemma_pivot_at_least(s: Seq<usize>, i: int)
    requires
        0 <= i < s.len(),
        forall|j: int| 0 <= j < i ==> #[trigger] s[j] + 1 == s[j + 1],
    ensures
        comb_pivot(s) >= i,
{
    lemma_pivot_from_up(s, 0, i);
}

proof fn lemma_pivot_from_up(s: Seq<usize>, m: int, i: int)
    requires
        0 <= m <= i < s.len(),
        forall|j: int| m <= j < i ==> #[trigger] s[j] + 1 == s[j + 1],
    ensures
        comb_pivot_from(s, m) >= i,
    decreases i - m,
{
    if m < i {
        lemma_pivot_from_up(s, m + 1, i);
        assert(s[m] + 1 == s[m + 1]);
    } else {
        lemma_pivot_from_props(s, m);
    }
}

/// Inside the bottom run, each entry is determined by the pivot's entry:
/// `s[j] == s[p] - (p - j)`.
proof fn lemma_run_value(s: Seq<usize>, j: int, p: int)
    requires
        0 <= j <= p < s.len(),
        forall|m: int| 0 <= m < p ==> #[trigger] s[m] + 1 == s[m + 1],
    ensures
        s[j] == s[p] - (p - j),
    decreases p - j,
{
    if j < p {
        lemma_run_value(s, j + 1, p);
        assert(s[j] + 1 == s[j + 1]);
    }
}

/// The highest position at which two equal-length tuples differ, `-1` when
/// they agree everywhere.
spec fn top_diff(a: Seq<usize>, b: Seq<usize>) -> int
    recommends
        a.len() == b.len(),
    decreases a.len(),
{
    if a.len() == 0 || b.len() == 0 {
        -1
    } else if a.last() != b.last() {
        a.len() - 1
    } else {
        top_diff(a.drop_last(), b.drop_last())
    }
}

/// The colexicographic order is strict: no tuple is below itself, so a
/// generator whose every step strictly increases never repeats a tuple.
pub proof fn lemma_colex_irreflexive(a: Seq<usize>)
    ensures
        !colex_lt(a, a),
    decreases a.len(),
{
    if a.len() > 0 {
        lemma_colex_irreflexive(a.drop_last());
    }
}

/// Any two equal-length tuples are ordered: one is below the other, or they
/// are equal.
pub proof fn lemma_colex_trichotomy(a: Seq<usize>, b: Seq<usize>)
    requires
        a.len() == b.len(),
    ensures
        colex_lt(a, b) || colex_lt(b, a) || a == b,
    decreases a.len(),
{
    if a.len() == 0 {
        assert(a =~= b);
    } else if a.last() == b.last() {
        lemma_colex_trichotomy(a.drop_last(), b.drop_last());
        if a.drop_last() == b.drop_last() {
            assert forall|j: int| 0 <= j < a.len() implies a[j] == b[j] by {
                if j < a.len() - 1 {
                    assert(a[j] == a.drop_last()[j]);
                    assert(b[j] == b.drop_last()[j]);
                }
            }
            assert(a =~= b);
        }
    }
}

/// The colexicographic order chains: below and below again is still below.
pub proof fn lemma_colex_transitive(a: Seq<usize>, b: Seq<usize>, c: Seq<usize>)
    requires
        a.len() == b.len(),
        b.len() == c.len(),
        colex_lt(a, b),
        colex_lt(b, c),
    ensures
        colex_lt(a, c),
    decreases a.len(),
{
    if a.last() == b.last() && b.last() == c.last() {
        lemma_colex_transitive(a.drop_last(), b.drop_last(), c.drop_last());
    }
}

/// A colexicographically smaller tuple is smaller at the highest position
/// where the two differ.
proof fn lemma_colex_to_diff(a: Seq<usize>, b: Seq<usize>)
    requires
        a.len() == b.len(),
        colex_lt(a, b),
    ensures
        0 <= top_diff(a, b) < a.len(),
        a[top_diff(a, b)] < b[top_diff(a, b)],
        forall|j: int| top_diff(a, b) < j < a.len() ==> a[j] == #[trigger] b[j],
    decreases a.len(),
{
    if a.last() != b.last() {
    } else {
        lemma_colex_to_diff(a.drop_last(), b.drop_last());
        assert(top_diff(a, b) == top_diff(a.drop_last(), b.drop_last()));
        assert forall|j: int| top_diff(a, b) < j < a.len() implies a[j] == #[trigger] b[j] by {
            if j < a.len() - 1 {
                assert(a.drop_last()[j] == b.drop_last()[j]);
            }
        }
    }
}

/// Being smaller at some position and equal everywhere above it makes a tuple
/// colexicographically smaller.
proof fn lemma_colex_from_diff(a: Seq<usize>, b: Seq<usize>, p: int)
    requires
        a.len() == b.len(),
        0 <= p < a.len(),
        a[p] < b[p],
        forall|j: int| p < j < a.len() ==> a[j] == #[trigger] b[j],
    ensures
        colex_lt(a, b),
    decreases a.len(),
{
    if p == a.len() - 1 {
    } else {
        assert(a[a.len() - 1] == b[a.len() - 1]);
        lemma_colex_from_diff(a.drop_last(), b.drop_last(), p);
    }
}

/// Being pointwise no greater below `m` and equal from `m` upward makes a
/// tuple colexicographically no greater.
proof fn lemma_colex_le_pointwise(a: Seq<usize>, b: Seq<usize>, m: int)
    requires
        a.len() == b.len(),
        forall|j: int| 0 <= j < m && j < a.len() ==> (#[trigger] a[j]) <= b[j],
        forall|j: int| 0 <= j && m <= j < a.len() ==> a[j] == #[trigger] b[j],
    ensures
        colex_le(a, b),
    decreases a.len(),
{
    if a.len() == 0 {
        assert(a =~= b);
    } else if a.last() == b.last() {
        assert forall|j: int| 0 <= j < m && j < a.drop_last().len() implies (#[trigger] a.drop_last()[j]) <= b.drop_last()[j] by {
            assert(a[j] <= b[j]);
        }
        assert forall|j: int| 0 <= j && m <= j < a.drop_last().len() implies a.drop_last()[j] == #[trigger] b.drop_last()[j] by {
            assert(a[j] == b[j]);
        }
        lemma_colex_le_pointwise(a.drop_last(), b.drop_last(), m);
        if a.drop_last() == b.drop_last() {
            assert forall|j: int| 0 <= j < a.len() implies a[j] == b[j] by {
                if j < a.len() - 1 {
                    assert(a[j] == a.drop_last()[j]);
                    assert(b[j] == b.drop_last()[j]);
                }
            }
            assert(a =~= b);
        }
    } else {
        assert(a[a.len() - 1] <= b[a.len() - 1]);
    }
}

/// The successor of an ascending tuple is strictly greater in the
/// colexicographic order: the generator's output only moves forward.
pub proof fn lemma_comb_next_increases(s: Seq<usize>)
    requires
        is_ascending(s),
        s.len() > 0,
        s.last() < usize::MAX,
    ensures
        colex_lt(s, comb_next(s)),
{
    let p = comb_pivot(s);
    lemma_pivot_from_props(s, 0);
    lemma_ascending_gap(s, p, s.len() - 1);
    lemma_colex_from_diff(s, comb_next(s), p);
}

/// No ascending tuple fits strictly between an ascending tuple and its
/// successor: the generator skips no combination.
pub proof fn lemma_comb_next_tight(s: Seq<usize>, t: Seq<usize>)
    requires
        is_ascending(s),
        is_ascending(t),
        t.len() == s.len(),
        0 < s.len() <= usize::MAX,
        colex_lt(s, t),
        s.last() < usize::MAX,
    ensures
        colex_le(comb_next(s), t),
{
    let p = comb_pivot(s);
    let nx = comb_next(s);
    lemma_pivot_from_props(s, 0);
    lemma_ascending_gap(s, p, s.len() - 1);
    lemma_colex_to_diff(s, t);
    let q = top_diff(s, t);
    if q > p {
        lemma_colex_from_diff(nx, t, q);
    } else {
        lemma_ascending_gap(t, q, p);
        lemma_run_value(s, q, p);
        assert(t[p] >= nx[p]);
        if t[p] > nx[p] {
            lemma_colex_from_diff(nx, t, p);
        } else {
            lemma_ascending_ge_index(t);
            lemma_colex_le_pointwise(nx, t, p);
        }
    }
}

/// The tuple `[0, 1, ..., k-1]` that a fresh generator holds is the
/// colexicographically least ascending tuple of its width: enumeration starts
/// at the very beginning.
pub proof fn lemma_first_combination_minimal(t: Seq<usize>)
    requires
        is_ascending(t),
        t.len() <= usize::MAX,
    ensures
        colex_le(initial_indices(t.len()), t),
{
    lemma_ascending_ge_index(t);
    lemma_colex_le_pointwise(initial_indices(t.len()), t, t.len() as int);
}

/// A domain smaller than the generator's width can never satisfy it: the
/// generator reports exhaustion from the first probe onward, before any tuple
/// is produced.
pub proof fn lemma_exhausted_when_domain_short(g: LazyCombinationGenerator, item_count: int)
    requires
        g.wf(),
        0 <= item_count < g@.len(),
    ensures
        g.exhausted_at(item_count),
{
    lemma_ascending_ge_index(g@);
    assert(g@[g@.len() - 1] >= g@.len() - 1);
}

/// The successor of an ascending tuple ascends again, and its last entry
/// grows by at most one.
pub proof fn lemma_comb_next_ascending(s: Seq<usize>)
    requires
        is_ascending(s),
        s.len() > 0,
        s.last() < usize::MAX,
    ensures
        is_ascending(comb_next(s)),
        comb_next(s).len() == s.len(),
        s.last() <= comb_next(s).last() <= s.last() + 1,
{
    let p = comb_pivot(s);
    let t = comb_next(s);
    lemma_pivot_from_props(s, 0);
    lemma_ascending_ge_index(s);
    if p < s.len() - 1 {
        lemma_ascending_gap(s, p + 1, s.len() - 1);
    }
    assert forall|i: int| 0 <= i && i + 1 < t.len() implies t[i] < #[trigger] t[i + 1] by {
        if i + 1 < p {
        } else if i + 1 == p {
            assert(s[p] >= p);
        } else if i == p {
            assert(s[p] < s[p + 1]);
        }
    }
}

/// The binomial coefficient, by Pascal's rule.
pub open spec fn binomial(n: nat, k: nat) -> nat
    decreases n,
{
    if k == 0 {
        1
    } else if n == 0 {
        0
    } else {
        binomial((n - 1) as nat, (k - 1) as nat) + binomial((n - 1) as nat, k)
    }
}

/// The first `m` entries of an index tuple read as a combinatorial-number-
/// system numeral: entry `j` carries weight `C(s[j], j + 1)`.
pub open spec fn comb_rank_below(s: Seq<usize>, m: int) -> int
    decreases m,
{
    if m <= 0 {
        0
    } else {
        comb_rank_below(s, m - 1) + binomial(s[m - 1] as nat, m as nat)
    }
}

/// The whole tuple read as a combinatorial-number-system numeral.  It counts
/// the combinations the generator has already handed out.
pub open spec fn comb_rank(s: Seq<usize>) -> int {
    comb_rank_below(s, s.len() as int)
}

/// Choosing more than there is leaves nothing: `C(n, k) == 0` for `k > n`.
proof fn lemma_binomial_zero(n: nat, k: nat)
    requires
        k > n,
    ensures
        binomial(n, k) == 0,
    decreases n,
{
    if n > 0 {
        lemma_binomial_zero((n - 1) as nat, (k - 1) as nat);
        lemma_binomial_zero((n - 1) as nat, k);
    }
}

/// The binomial coefficient grows with its upper argument.
proof fn lemma_binomial_monotone(n1: nat, n2: nat, k: nat)
    requires
        n1 <= n2,
    ensures
        binomial(n1, k) <= binomial(n2, k),
    decreases n2,
{
    if k > 0 && n2 > 0 && n1 < n2 {
        lemma_binomial_monotone(n1, (n2 - 1) as nat, k);
    }
}

/// A tuple whose first `m` entries sit at their own positions ranks zero
/// there: each weight `C(j, j + 1)` vanishes.
proof fn lemma_identity_prefix_rank(s: Seq<usize>, m: int)
    requires
        m <= s.len(),
        forall|j: int| 0 <= j < m ==> (#[trigger] s[j]) == j,
    ensures
        comb_rank_below(s, m) == 0,
    decreases m,
{
    if m > 0 {
        lemma_identity_prefix_rank(s, m - 1);
        lemma_binomial_zero((m - 1) as nat, m as nat);
    }
}

/// A run of consecutive indices ending at the pivot ranks one short of the
/// pivot's weight at the next width: the hockey-stick identity
/// `C(a, 1) + C(a + 1, 2) + ... + C(a + p - 1, p) == C(a + p, p) - 1`
/// read along the run.
proof fn lemma_run_rank(s: Seq<usize>, p: int)
    requires
        0 <= p < s.len(),
        forall|j: int| 0 <= j <= p ==> (#[trigger] s[j]) == s[p] - (p - j),
        s[p] >= p,
    ensures
        comb_rank_below(s, p) == binomial(s[p] as nat, p as nat) - 1,
    decreases p,
{
    if p == 0 {
    } else {
        assert forall|j: int| 0 <= j <= p - 1 implies (#[trigger] s[j]) == s[p - 1] - (p - 1 - j)
            by {
            assert(s[j] == s[p] - (p - j));
            assert(s[p - 1] == s[p] - 1);
        }
        lemma_run_rank(s, p - 1);
        assert(s[p - 1] == s[p] - 1);
        // Pascal's rule at (s[p], p): the definition unfolded
        assert(binomial(s[p] as nat, p as nat) == binomial((s[p] - 1) as nat, (p - 1) as nat)
            + binomial((s[p] - 1) as nat, p as nat));
    }
}

/// Two tuples that agree from `m0` up to `m` keep any rank difference.
proof fn lemma_comb_rank_congruent(a: Seq<usize>, b: Seq<usize>, m0: int, m: int, d: int)
    requires
        0 <= m0 <= m,
        m <= a.len(),
        m <= b.len(),
        forall|j: int| m0 <= j < m ==> a[j] == #[trigger] b[j],
        comb_rank_below(a, m0) == comb_rank_below(b, m0) + d,
    ensures
        comb_rank_below(a, m) == comb_rank_below(b, m) + d,
    decreases m - m0,
{
    if m > m0 {
        lemma_comb_rank_congruent(a, b, m0, m - 1, d);
        assert(a[m - 1] == b[m - 1]);
    }
}

/// The rank of the first `m` entries of an ascending tuple stays below the
/// weight one step above its top entry.
proof fn lemma_rank_below_top(s: Seq<usize>, m: int)
    requires
        is_ascending(s),
        1 <= m <= s.len(),
    ensures
        comb_rank_below(s, m) <= binomial((s[m - 1] + 1) as nat, m as nat) - 1,
        comb_rank_below(s, m) >= 0,
    decreases m,
{
    if m == 1 {
        assert(comb_rank_below(s, 0) == 0);
        assert(comb_rank_below(s, 1) == binomial(s[0] as nat, 1));
        lemma_binomial_n_one(s[0] as nat);
        lemma_binomial_n_one((s[0] + 1) as nat);
    } else {
        lemma_rank_below_top(s, m - 1);
        assert(comb_rank_below(s, m) == comb_rank_below(s, m - 1) + binomial(
            s[m - 1] as nat,
            m as nat,
        ));
        assert(s[m - 2] < s[m - 1]);
        lemma_binomial_monotone((s[m - 2] + 1) as nat, s[m - 1] as nat, (m - 1) as nat);
        // Pascal's rule at (s[m-1] + 1, m): the definition unfolded
        assert(binomial((s[m - 1] + 1) as nat, m as nat) == binomial(s[m - 1] as nat, (m - 1) as nat)
            + binomial(s[m - 1] as nat, m as nat));
    }
}

/// `C(n, 1) == n`.
proof fn lemma_binomial_n_one(n: nat)
    ensures
        binomial(n, 1) == n,
    decreases n,
{
    if n > 0 {
        lemma_binomial_n_one((n - 1) as nat);
        assert(binomial((n - 1) as nat, 0) == 1);
    }
}

/// A fresh generator's tuple ranks zero: the count starts at the beginning.
pub proof fn lemma_comb_rank_initial(k: nat)
    requires
        k <= usize::MAX,
    ensures
        comb_rank(initial_indices(k)) == 0,
{
    lemma_identity_prefix_rank(initial_indices(k), k as int);
}

/// The tuples are a combinatorial-number-system odometer: each step of the
/// generator advances the rank by exactly one, so no two tuples of a run
/// share a rank and none is left out.
pub proof fn lemma_comb_step_rank(s: Seq<usize>)
    requires
        is_ascending(s),
        s.len() > 0,
        s.last() < usize::MAX,
    ensures
        comb_rank(comb_next(s)) == comb_rank(s) + 1,
{
    let p = comb_pivot(s);
    let nx = comb_next(s);
    let k = s.len() as int;
    lemma_pivot_from_props(s, 0);
    lemma_ascending_ge_index(s);
    lemma_ascending_gap(s, p, k - 1);
    assert forall|j: int| 0 <= j <= p implies (#[trigger] s[j]) == s[p] - (p - j) by {
        lemma_run_value(s, j, p);
    }
    lemma_run_rank(s, p);
    lemma_identity_prefix_rank(nx, p);
    assert(comb_rank_below(nx, p + 1) == comb_rank_below(nx, p) + binomial(
        nx[p] as nat,
        (p + 1) as nat,
    ));
    assert(comb_rank_below(s, p + 1) == comb_rank_below(s, p) + binomial(
        s[p] as nat,
        (p + 1) as nat,
    ));
    assert(nx[p] == s[p] + 1);
    // Pascal's rule at (s[p] + 1, p + 1): the definition unfolded
    assert(binomial((s[p] + 1) as nat, (p + 1) as nat) == binomial(s[p] as nat, p as nat)
        + binomial(s[p] as nat, (p + 1) as nat));
    assert(comb_rank_below(nx, p + 1) == comb_rank_below(s, p + 1) + 1);
    lemma_comb_rank_congruent(nx, s, p + 1, k, 1);
}

/// The generator is exhausted for a domain of `n` items exactly from rank
/// `C(n, k)` on: ranks `0, 1, ..., C(n, k) - 1` are the tuples inside the
/// domain.  Starting from rank zero and advancing by one per step, the
/// generator therefore hands out exactly `C(n, k)` combinations of width
/// `k > 0` over `n` items.
pub proof fn lemma_comb_rank_counts_domain(s: Seq<usize>, n: int)
    requires
        is_ascending(s),
        s.len() > 0,
        0 <= n,
    ensures
        s.last() >= n <==> comb_rank(s) >= binomial(n as nat, s.len()),
{
    let k = s.len() as int;
    lemma_rank_below_top(s, k);
    if s.last() >= n {
        lemma_binomial_monotone(n as nat, s[k - 1] as nat, k as nat);
        assert(comb_rank_below(s, k) == comb_rank_below(s, k - 1) + binomial(
            s[k - 1] as nat,
            k as nat,
        ));
        if k == 1 {
        } else {
            lemma_rank_below_top(s, k - 1);
        }
    } else {
        lemma_binomial_monotone((s[k - 1] + 1) as nat, n as nat, k as nat);
    }
}

/// The piece the two combination adapters share: the generator plus the
/// "check, snapshot, advance" discipline of one pull.
struct State {
    gen: LazyCombinationGenerator,
}

impl State {
    fn new(k: usize) -> (s: Self)
        ensures
            s.gen.wf(),
            !s.gen.marked_done(),
            s.gen@ == initial_indices(k as nat),
    {
        State { gen: LazyCombinationGenerator::new(k) }
    }

    fn max_index(&self) -> (r: Option<usize>)
        ensures
            r == self.gen.spec_max_index(),
    {
        self.gen.max_index()
    }

    /// One pull against a domain of `item_count` items: either the generator
    /// is exhausted for that domain and nothing moves, or the current tuple
    /// is handed out and the generator advances past it.
    fn get_and_step(&mut self, item_count: usize) -> (r: Option<Vec<usize>>)
        requires
            old(self).gen.wf(),
        ensures
            final(self).gen.wf(),
            old(self).gen.exhausted_at(item_count as int) ==> r is None && *final(self)
                == *old(self),
            !old(self).gen.exhausted_at(item_count as int) ==> {
                &&& r is Some
                &&& r.unwrap()@ == old(self).gen@
                &&& (old(self).gen@.len() == 0 ==> final(self).gen@ == old(self).gen@ && final(self).gen.marked_done())
                &&& (old(self).gen@.len() > 0 ==> final(self).gen@ == comb_next(old(self).gen@)
                    && !final(self).gen.marked_done())
            },
    {
        if self.gen.is_done(item_count) {
            None
        } else {
            let src = self.gen.indices();
            let mut snapshot: Vec<usize> = Vec::new();
            let mut i: usize = 0;
            while i < src.len()
                invariant
                    i <= src@.len(),
                    snapshot@.len() == i,
                    forall|j: int| 0 <= j < i ==> (#[trigger] snapshot@[j]) == src@[j],
                decreases src@.len() - i,
            {
                snapshot.push(src[i]);
                i += 1;
            }
            proof {
                assert(snapshot@ =~= self.gen@);
            }
            self.gen.step();
            Some(snapshot)
        }
    }
}

/// Pulls width-`k` combinations of the values pushed into it so far, cloning
/// the chosen values into each output tuple.
///
/// The element source stays with the caller: [`Self::push`] hands the adapter
/// one more element, [`Self::missing_items`] says how many more the current
/// combination needs, and [`Self::next`] yields the next tuple once enough
/// are buffered.  A pull that comes up empty leaves the adapter exactly as it
/// was, so enumeration resumes seamlessly when the source yields more.
pub struct Combinations<T> {
    items: Vec<T>,
    state: State,
}

impl<T> Combinations<T> {
    /// The values buffered so far, in arrival order.
    pub closed spec fn buffered(&self) -> Seq<T> {
        self.items@
    }

    /// The index tuple the next pull will hand out.
    pub closed spec fn current_indices(&self) -> Seq<usize> {
        self.state.gen@
    }

    /// Whether the underlying generator has marked itself done.
    pub closed spec fn marked_done(&self) -> bool {
        self.state.gen.marked_done()
    }

    /// The width every output tuple has.
    pub open spec fn width(&self) -> nat {
        self.current_indices().len()
    }

    /// The adapter's invariant: the index tuple ascends and never runs more
    /// than one position past the buffer.
    pub closed spec fn wf(&self) -> bool {
        &&& self.state.gen.wf()
        &&& self.current_indices().len() < usize::MAX
        &&& self.current_indices().len() > 0 ==> (self.current_indices().last()
            <= self.current_indices().len() - 1 || self.current_indices().last()
            <= self.buffered().len())
    }

    /// Whether a pull right now would come up empty: the generator is done,
    /// or the buffer is too short for the current tuple.  More pushes can
    /// clear the second case but never the first.
    pub open spec fn exhausted_now(&self) -> bool {
        self.marked_done() || (self.width() > 0 && self.current_indices().last() as int
            >= self.buffered().len())
    }

    /// Builds an adapter of width `k` with an empty buffer.
    pub fn new(k: usize) -> (c: Self)
        requires
            k < usize::MAX,
        ensures
            c.wf(),
            !c.marked_done(),
            c.buffered() == Seq::<T>::empty(),
            c.current_indices() == initial_indices(k as nat),
    {
        let c = Combinations { items: Vec::new(), state: State::new(k) };
        proof {
            lemma_ascending_ge_index(c.current_indices());
        }
        c
    }

    /// Hands the adapter one more element from the source.
    pub fn push(&mut self, item: T)
        requires
            old(self).wf(),
        ensures
            final(self).wf(),
            final(self).buffered() == old(self).buffered().push(item),
            final(self).current_indices() == old(self).current_indices(),
            final(self).marked_done() == old(self).marked_done(),
    {
        self.items.push(item);
    }

    /// How many more elements the buffer needs before the current tuple can
    /// be handed out: zero when a pull can already be answered or the width
    /// is zero.
    pub fn missing_items(&self) -> (r: usize)
        requires
            self.wf(),
        ensures
            self.width() == 0 ==> r == 0,
            self.width() > 0 ==> r == if self.current_indices().last() as int
                >= self.buffered().len() {
                self.current_indices().last() + 1 - self.buffered().len()
            } else {
                0
            },
    {
        match self.state.max_index() {
            None => 0,
            Some(m) => {
                let len = self.items.len();
                if m < len {
                    0
                } else {
                    m - len + 1
                }
            },
        }
    }

    /// One pull.  When the buffer satisfies the current tuple, the tuple's
    /// values are cloned out in index order and the generator advances;
    /// otherwise nothing changes and the pull reports empty — which means
    /// exhaustion if the source has ended, or "not yet" if it can still
    /// yield.
    #[verifier::rlimit(100)]
    pub fn next(&mut self) -> (r: Option<Vec<T>>) where T: Clone
        requires
            old(self).wf(),
        ensures
            final(self).wf(),
            final(self).buffered() == old(self).buffered(),
            old(self).exhausted_now() ==> r is None && *final(self) == *old(self),
            !old(self).exhausted_now() ==> {
                &&& r is Some
                &&& r.unwrap()@.len() == old(self).width()
                &&& forall|i: int|
                    0 <= i < old(self).width() ==> cloned::<T>(
                        old(self).buffered()[old(self).current_indices()[i] as int],
                        #[trigger] r.unwrap()@[i],
                    )
                &&& (old(self).width() == 0 ==> final(self).marked_done() && final(self).current_indices() == old(self).current_indices())
                &&& (old(self).width() > 0 ==> final(self).current_indices() == comb_next(
                    old(self).current_indices(),
                ) && !final(self).marked_done())
            },
    {
        let ghost pre = *self;
        let cnt = self.items.len();
        match self.state.get_and_step(cnt) {
            None => None,
            Some(idx) => {
                proof {
                    lemma_ascending_ge_index(pre.current_indices());
                    if idx@.len() > 0 {
                        assert forall|j: int| 0 <= j < idx@.len() implies (#[trigger] idx@[j])
                            < cnt by {
                            lemma_ascending_gap(idx@, j, idx@.len() - 1);
                        }
                    }
                    if pre.width() > 0 {
                        lemma_comb_next_ascending(pre.current_indices());
                    }
                }
                let mut out: Vec<T> = Vec::new();
                let mut i: usize = 0;
                while i < idx.len()
                    invariant
                        i <= idx@.len(),
                        out@.len() == i,
                        idx@.len() <= usize::MAX,
                        self.items@ == pre.items@,
                        forall|j: int| 0 <= j < idx@.len() ==> (#[trigger] idx@[j]) < self.items@.len(),
                        forall|j: int|
                            0 <= j < i ==> cloned::<T>(
                                self.items@[idx@[j] as int],
                                #[trigger] out@[j],
                            ),
                    decreases idx@.len() - i,
                {
                    let e = &self.items[idx[i]];
                    out.push(e.clone());
                    i += 1;
                }
                Some(out)
            },
        }
    }
}

/// Pulls width-`k` combinations of a fixed slice's elements, handing out
/// references into the slice.  The domain never grows, so a pull that comes
/// up empty means the enumeration is over for good.
pub struct SliceCombinations<'a, T> {
    items: &'a [T],
    state: State,
}

impl<'a, T> SliceCombinations<'a, T> {
    /// The slice the tuples draw from.
    pub closed spec fn domain(&self) -> Seq<T> {
        self.items@
    }

    /// The index tuple the next pull will hand out.
    pub closed spec fn current_indices(&self) -> Seq<usize> {
        self.state.gen@
    }

    /// Whether the underlying generator has marked itself done.
    pub closed spec fn marked_done(&self) -> bool {
        self.state.gen.marked_done()
    }

    /// The width every output tuple has.
    pub open spec fn width(&self) -> nat {
        self.current_indices().len()
    }

    /// The adapter's invariant: the index tuple ascends.
    pub closed spec fn wf(&self) -> bool {
        self.state.gen.wf()
    }

    /// Whether a pull right now would come up empty; the domain is fixed, so
    /// this never reverts to false.
    pub open spec fn exhausted_now(&self) -> bool {
        self.marked_done() || (self.width() > 0 && self.current_indices().last() as int
            >= self.domain().len())
    }

    /// Builds an adapter of width `k` over the given slice.
    pub fn new(items: &'a [T], k: usize) -> (c: Self)
        ensures
            c.wf(),
            !c.marked_done(),
            c.domain() == items@,
            c.current_indices() == initial_indices(k as nat),
    {
        SliceCombinations { items, state: State::new(k) }
    }

    /// One pull: the next combination of slice elements, as references in
    /// index order, or `None` once all have been produced.
    pub fn next(&mut self) -> (r: Option<Vec<&'a T>>)
        requires
            old(self).wf(),
        ensures
            final(self).wf(),
            final(self).domain() == old(self).domain(),
            old(self).exhausted_now() ==> r is None && *final(self) == *old(self),
            !old(self).exhausted_now() ==> {
                &&& r is Some
                &&& r.unwrap()@.len() == old(self).width()
                &&& forall|i: int|
                    0 <= i < old(self).width() ==> *(#[trigger] r.unwrap()@[i]) == old(self).domain()[old(self).current_indices()[i] as int]
                &&& (old(self).width() == 0 ==> final(self).marked_done() && final(self).current_indices() == old(self).current_indices())
                &&& (old(self).width() > 0 ==> final(self).current_indices() == comb_next(
                    old(self).current_indices(),
                ) && !final(self).marked_done())
            },
    {
        let ghost pre = *self;
        let items = self.items;
        match self.state.get_and_step(items.len()) {
            None => None,
            Some(idx) => {
                proof {
                    if idx@.len() > 0 {
                        assert forall|j: int| 0 <= j < idx@.len() implies (#[trigger] idx@[j])
                            < items@.len() by {
                            lemma_ascending_gap(idx@, j, idx@.len() - 1);
                        }
                    }
                }
                let mut out: Vec<&'a T> = Vec::new();
                let mut i: usize = 0;
                while i < idx.len()
                    invariant
                        i <= idx@.len(),
                        out@.len() == i,
                        forall|j: int| 0 <= j < idx@.len() ==> (#[trigger] idx@[j]) < items@.len(),
                        forall|j: int|
                            0 <= j < i ==> *(#[trigger] out@[j]) == items@[idx@[j] as int],
                    decreases idx@.len() - i,
                {
                    out.push(&items[idx[i]]);
                    i += 1;
                }
                Some(out)
            },
        }
    }
}

/// A width-zero combination adapter owes exactly one (empty) tuple: it is
/// exhausted precisely once the generator has marked that tuple spent, and
/// the buffer's content never matters.
pub proof fn lemma_empty_width_combinations_exhaustion<T>(c: &Combinations<T>)
    requires
        c.width() == 0,
    ensures
        c.exhausted_now() <==> c.marked_done(),
{
}

/// A buffer shorter than the width can never satisfy a pull: the
/// sequence-backed combination adapter reports "nothing yet" from the first
/// pull onward until enough elements arrive.
pub proof fn lemma_combinations_short_buffer_exhausts<T>(c: &Combinations<T>)
    requires
        c.wf(),
        c.buffered().len() < c.width(),
    ensures
        c.exhausted_now(),
{
    lemma_exhausted_when_domain_short(c.state.gen, c.buffered().len() as int);
}

/// A slice shorter than the width yields no combination at all: the
/// slice-backed adapter reports exhaustion from the first pull onward.
pub proof fn lemma_slice_combinations_short_domain_exhausts<'a, T>(c: &SliceCombinations<'a, T>)
    requires
        c.wf(),
        c.domain().len() < c.width(),
    ensures
        c.exhausted_now(),
{
    lemma_exhausted_when_domain_short(c.state.gen, c.domain().len() as int);
}

} // verus!

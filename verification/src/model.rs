//! The mathematical model: permutations as sequences of `usize`,
//! and the spec-level vocabulary shared by tables and decompositions.

use vstd::prelude::*;

verus! {

/// Some index of `s` is mapped to the value `v`.
pub open spec fn has_source(s: Seq<usize>, v: int) -> bool {
    exists|i: int| 0 <= i < s.len() && #[trigger] s[i] == v
}

/// A sequence of length `n` is a permutation table when it maps the
/// indices `0..n` bijectively onto the values `0..n`: the entry at
/// index `i` is the image of `i`.
pub open spec fn is_permutation(s: Seq<usize>) -> bool {
    &&& forall|i: int| 0 <= i < s.len() ==> #[trigger] s[i] < s.len()
    &&& forall|i: int, j: int| 0 <= i < s.len() && 0 <= j < s.len() && i != j ==> s[i] != s[j]
    &&& forall|v: int| 0 <= v < s.len() ==> #[trigger] has_source(s, v)
}

/// The identity permutation on `0..n`.
pub open spec fn identity_permutation(n: nat) -> Seq<usize> {
    Seq::new(n, |i: int| i as usize)
}

/// The canonical `n`-cycle: each element maps to its successor, and
/// the last element wraps around to `0`.
pub open spec fn rotation_permutation(n: nat) -> Seq<usize> {
    Seq::new(n, |i: int| if i + 1 == n { 0usize } else { (i + 1) as usize })
}

/// Functional composition of two tables of equal length, read
/// right-to-left: the result sends `i` to `a[b[i]]` (apply `b`, then `a`).
pub open spec fn composition(a: Seq<usize>, b: Seq<usize>) -> Seq<usize> {
    Seq::new(b.len(), |i: int| a[b[i] as int])
}

/// `r` is the inverse table of `t`: it sends each image back to its source.
pub open spec fn is_inverse_of(r: Seq<usize>, t: Seq<usize>) -> bool {
    &&& r.len() == t.len()
    &&& forall|i: int| 0 <= i < t.len() ==> r[#[trigger] t[i] as int] == i
}

/// Applying a table to an arbitrary value: the value is first reduced
/// modulo the table's length.
pub open spec fn application(t: Seq<usize>, x: usize) -> usize
    recommends
        t.len() > 0,
{
    t[(x as int) % (t.len() as int)]
}

pub proof fn lemma_identity_is_permutation(n: nat)
    requires
        n <= usize::MAX,
    ensures
        is_permutation(identity_permutation(n)),
{
    let s = identity_permutation(n);
    assert forall|v: int| 0 <= v < s.len() implies #[trigger] has_source(s, v) by {
        assert(s[v] == v);
    }
}

/// The position one past the last element of cycle `c`: the next
/// cycle's start, or the end of the enumeration for the last cycle.
pub open spec fn run_end(ev: Seq<usize>, sv: Seq<usize>, c: int) -> int {
    if c + 1 < sv.len() {
        sv[c + 1] as int
    } else {
        ev.len() as int
    }
}

/// Position `p` of the enumeration lies in cycle `c`.
pub open spec fn in_run(ev: Seq<usize>, sv: Seq<usize>, c: int, p: int) -> bool {
    0 <= c < sv.len() && sv[c] <= p < run_end(ev, sv, c)
}

/// The position holding the successor of the element at position `p`
/// of cycle `c`: the next position, wrapping around to the cycle's start.
pub open spec fn successor_position(ev: Seq<usize>, sv: Seq<usize>, c: int, p: int) -> int {
    if p + 1 < run_end(ev, sv, c) {
        p + 1
    } else {
        sv[c] as int
    }
}

/// The starts buffer cuts the positions `0..n` into non-empty runs:
/// it begins at zero, increases strictly, and stays below `n`.
pub open spec fn wf_starts(ev: Seq<usize>, sv: Seq<usize>) -> bool {
    &&& (ev.len() == 0 ==> sv.len() == 0)
    &&& (ev.len() > 0 ==> sv.len() > 0 && sv[0] == 0)
    &&& forall|c: int| 0 <= c < sv.len() ==> (#[trigger] sv[c] as int) < run_end(ev, sv, c)
    &&& forall|c: int| 0 <= c < sv.len() ==> (#[trigger] sv[c] as int) < ev.len()
}

/// A well-formed decomposition: the enumeration lists every element of
/// `0..n` exactly once, cut into non-empty cycles by the starts buffer.
pub open spec fn wf_decomposition(ev: Seq<usize>, sv: Seq<usize>) -> bool {
    &&& is_permutation(ev)
    &&& wf_starts(ev, sv)
}

/// Within every listed cycle, `t` maps each element to the next listed
/// one, wrapping around at the cycle's end.
pub open spec fn links_ok(ev: Seq<usize>, sv: Seq<usize>, t: Seq<usize>) -> bool {
    forall|c: int, p: int|
        #[trigger] in_run(ev, sv, c, p) ==> t[ev[p] as int] == ev[successor_position(ev, sv, c, p)]
}

/// The decomposition `(ev, sv)` denotes the table `t`.
pub open spec fn represents(ev: Seq<usize>, sv: Seq<usize>, t: Seq<usize>) -> bool {
    &&& t.len() == ev.len()
    &&& links_ok(ev, sv, t)
}

/// Every cycle is listed starting from its smallest element.
pub open spec fn min_first(ev: Seq<usize>, sv: Seq<usize>) -> bool {
    forall|c: int, p: int|
        #[trigger] in_run(ev, sv, c, p) && p > sv[c] ==> ev[p] > ev[sv[c] as int]
}

/// Cycles appear in increasing order of their leading element.
pub open spec fn leading_increasing(ev: Seq<usize>, sv: Seq<usize>) -> bool {
    forall|c1: int, c2: int|
        0 <= c1 < c2 < sv.len() ==> ev[#[trigger] sv[c1] as int] < ev[#[trigger] sv[c2] as int]
}

/// Every cycle is listed starting from its largest element.
pub open spec fn max_first(ev: Seq<usize>, sv: Seq<usize>) -> bool {
    forall|c: int, p: int|
        #[trigger] in_run(ev, sv, c, p) && p > sv[c] ==> ev[p] < ev[sv[c] as int]
}

/// Cycles appear in decreasing order of their leading element.
pub open spec fn leading_decreasing(ev: Seq<usize>, sv: Seq<usize>) -> bool {
    forall|c1: int, c2: int|
        0 <= c1 < c2 < sv.len() ==> ev[#[trigger] sv[c1] as int] > ev[#[trigger] sv[c2] as int]
}

/// The canonical shape that normalization produces: each cycle led by
/// its largest element, cycles ordered by decreasing leading element.
pub open spec fn is_normalized(ev: Seq<usize>, sv: Seq<usize>) -> bool {
    &&& max_first(ev, sv)
    &&& leading_decreasing(ev, sv)
}

/// Cycle starts increase strictly, and a whole earlier cycle lies
/// before any later cycle's start.
pub proof fn lemma_starts_increasing(ev: Seq<usize>, sv: Seq<usize>, c1: int, c2: int)
    requires
        wf_starts(ev, sv),
        0 <= c1 < c2 < sv.len(),
    ensures
        sv[c1] < sv[c2],
        run_end(ev, sv, c1) <= sv[c2] as int,
    decreases c2 - c1,
{
    assert((sv[c1] as int) < run_end(ev, sv, c1));
    if c1 + 1 == c2 {
        assert(run_end(ev, sv, c1) == sv[c2] as int);
    } else {
        lemma_starts_increasing(ev, sv, c1 + 1, c2);
        assert(run_end(ev, sv, c1) == sv[c1 + 1] as int);
    }
}

proof fn lemma_position_search(ev: Seq<usize>, sv: Seq<usize>, p: int, c0: int)
    requires
        wf_starts(ev, sv),
        0 <= p < ev.len(),
        0 <= c0 < sv.len(),
        sv[c0] <= p,
    ensures
        exists|c: int| #[trigger] in_run(ev, sv, c, p),
    decreases sv.len() - c0,
{
    if in_run(ev, sv, c0, p) {
    } else {
        assert(run_end(ev, sv, c0) <= p);
        assert(c0 + 1 < sv.len());
        lemma_position_search(ev, sv, p, c0 + 1);
    }
}

/// Every position of the enumeration lies in some cycle.
pub proof fn lemma_position_in_some_run(ev: Seq<usize>, sv: Seq<usize>, p: int)
    requires
        wf_starts(ev, sv),
        0 <= p < ev.len(),
    ensures
        exists|c: int| #[trigger] in_run(ev, sv, c, p),
{
    lemma_position_search(ev, sv, p, 0);
}

/// Distinct cycles occupy disjoint position ranges.
pub proof fn lemma_runs_disjoint(ev: Seq<usize>, sv: Seq<usize>, c1: int, c2: int, p: int)
    requires
        wf_starts(ev, sv),
        in_run(ev, sv, c1, p),
        in_run(ev, sv, c2, p),
    ensures
        c1 == c2,
{
    if c1 < c2 {
        lemma_starts_increasing(ev, sv, c1, c2);
    } else if c2 < c1 {
        lemma_starts_increasing(ev, sv, c2, c1);
    }
}

/// The successor position stays within its cycle, and two distinct
/// positions of one cycle have distinct successor positions.
pub proof fn lemma_successor_in_run(ev: Seq<usize>, sv: Seq<usize>, c: int, p: int)
    requires
        wf_starts(ev, sv),
        in_run(ev, sv, c, p),
    ensures
        in_run(ev, sv, c, successor_position(ev, sv, c, p)),
{
}

/// A decomposition denotes a genuine permutation: following every
/// listed successor link defines a bijection on `0..n`.
pub proof fn lemma_represents_implies_permutation(ev: Seq<usize>, sv: Seq<usize>, t: Seq<usize>)
    requires
        wf_decomposition(ev, sv),
        represents(ev, sv, t),
    ensures
        is_permutation(t),
{
    let n = ev.len() as int;
    assert forall|x: int| 0 <= x < n implies #[trigger] t[x] < n by {
        assert(has_source(ev, x));
        let p = choose|p: int| 0 <= p < n && #[trigger] ev[p] == x;
        lemma_position_in_some_run(ev, sv, p);
        let c = choose|c: int| #[trigger] in_run(ev, sv, c, p);
        lemma_successor_in_run(ev, sv, c, p);
        assert(t[ev[p] as int] == ev[successor_position(ev, sv, c, p)]);
    }
    assert forall|x1: int, x2: int|
        0 <= x1 < n && 0 <= x2 < n && x1 != x2 implies t[x1] != t[x2] by {
        assert(has_source(ev, x1) && has_source(ev, x2));
        let p1 = choose|p: int| 0 <= p < n && #[trigger] ev[p] == x1;
        let p2 = choose|p: int| 0 <= p < n && #[trigger] ev[p] == x2;
        lemma_position_in_some_run(ev, sv, p1);
        lemma_position_in_some_run(ev, sv, p2);
        let c1 = choose|c: int| #[trigger] in_run(ev, sv, c, p1);
        let c2 = choose|c: int| #[trigger] in_run(ev, sv, c, p2);
        if t[x1] == t[x2] {
            let q1 = successor_position(ev, sv, c1, p1);
            let q2 = successor_position(ev, sv, c2, p2);
            lemma_successor_in_run(ev, sv, c1, p1);
            lemma_successor_in_run(ev, sv, c2, p2);
            assert(ev[q1] == ev[q2]);
            assert(q1 == q2);
            lemma_runs_disjoint(ev, sv, c1, c2, q1);
            assert(p1 == p2);
        }
    }
    assert forall|v: int| 0 <= v < n implies #[trigger] has_source(t, v) by {
        assert(has_source(ev, v));
        let q = choose|p: int| 0 <= p < n && #[trigger] ev[p] == v;
        lemma_position_in_some_run(ev, sv, q);
        let c = choose|c: int| #[trigger] in_run(ev, sv, c, q);
        let pr = if q > sv[c] {
            q - 1
        } else {
            run_end(ev, sv, c) - 1
        };
        assert(in_run(ev, sv, c, pr));
        assert(successor_position(ev, sv, c, pr) == q);
        assert(t[ev[pr] as int] == v);
    }
}

/// A decomposition denotes exactly one table.
pub proof fn lemma_represented_table_unique(
    ev: Seq<usize>,
    sv: Seq<usize>,
    t1: Seq<usize>,
    t2: Seq<usize>,
)
    requires
        wf_decomposition(ev, sv),
        represents(ev, sv, t1),
        represents(ev, sv, t2),
    ensures
        t1 == t2,
{
    let n = ev.len() as int;
    assert forall|x: int| 0 <= x < n implies t1[x] == t2[x] by {
        assert(has_source(ev, x));
        let p = choose|p: int| 0 <= p < n && #[trigger] ev[p] == x;
        lemma_position_in_some_run(ev, sv, p);
        let c = choose|c: int| #[trigger] in_run(ev, sv, c, p);
        assert(t1[ev[p] as int] == ev[successor_position(ev, sv, c, p)]);
        assert(t2[ev[p] as int] == ev[successor_position(ev, sv, c, p)]);
    }
    assert(t1 =~= t2);
}

/// The number of elements of cycle `c`.
pub open spec fn run_length(ev: Seq<usize>, sv: Seq<usize>, c: int) -> int {
    run_end(ev, sv, c) - sv[c]
}

/// How many of the first `upto` cycles have length `k`.
pub open spec fn count_runs_with_length(ev: Seq<usize>, sv: Seq<usize>, k: int, upto: int) -> int
    decreases upto,
{
    if upto <= 0 {
        0
    } else {
        count_runs_with_length(ev, sv, k, upto - 1) + if run_length(ev, sv, upto - 1) == k {
            1int
        } else {
            0int
        }
    }
}

/// The sum of the lengths of the first `upto` cycles.
pub open spec fn run_length_sum(ev: Seq<usize>, sv: Seq<usize>, upto: int) -> int
    decreases upto,
{
    if upto <= 0 {
        0
    } else {
        run_length_sum(ev, sv, upto - 1) + run_length(ev, sv, upto - 1)
    }
}

/// The cycle lengths telescope: the first `upto` cycles together fill
/// the enumeration exactly up to the next cycle's start, and all of the
/// cycles together fill it whole.
pub proof fn lemma_run_length_sum(ev: Seq<usize>, sv: Seq<usize>, upto: int)
    requires
        wf_starts(ev, sv),
        0 <= upto <= sv.len(),
    ensures
        run_length_sum(ev, sv, upto) == if upto < sv.len() {
            sv[upto] as int
        } else {
            ev.len() as int
        },
    decreases upto,
{
    if upto == 0 {
        if sv.len() == 0 {
            assert(ev.len() == 0);
        }
    } else {
        lemma_run_length_sum(ev, sv, upto - 1);
    }
}

/// The weighted sum `(k + 1) * s[k]` over the first `upto` slots of a
/// count vector indexed by (length - 1).
pub open spec fn weighted_count_sum(s: Seq<usize>, upto: int) -> int
    decreases upto,
{
    if upto <= 0 {
        0
    } else {
        weighted_count_sum(s, upto - 1) + upto * s[upto - 1]
    }
}

pub proof fn lemma_weighted_sum_zero(s: Seq<usize>, upto: int)
    requires
        0 <= upto <= s.len(),
        forall|k: int| 0 <= k < s.len() ==> s[k] == 0,
    ensures
        weighted_count_sum(s, upto) == 0,
    decreases upto,
{
    if upto > 0 {
        lemma_weighted_sum_zero(s, upto - 1);
    }
}

/// Two count vectors that agree below `upto` have the same weighted sum.
pub proof fn lemma_weighted_sum_congruence(a: Seq<usize>, b: Seq<usize>, upto: int)
    requires
        0 <= upto <= a.len(),
        upto <= b.len(),
        forall|k: int| 0 <= k < upto ==> a[k] == b[k],
    ensures
        weighted_count_sum(a, upto) == weighted_count_sum(b, upto),
    decreases upto,
{
    if upto > 0 {
        lemma_weighted_sum_congruence(a, b, upto - 1);
    }
}

/// Raising slot `j` by one raises the weighted sum by `j + 1`.
pub proof fn lemma_weighted_sum_update(s: Seq<usize>, j: int, upto: int)
    requires
        0 <= j < upto <= s.len(),
        (s[j] as int) < usize::MAX,
    ensures
        weighted_count_sum(s.update(j, (s[j] + 1) as usize), upto) == weighted_count_sum(s, upto)
            + j + 1,
    decreases upto,
{
    let u = s.update(j, (s[j] + 1) as usize);
    if j == upto - 1 {
        lemma_weighted_sum_congruence(s, u, upto - 1);
        let a = s[j] as int;
        assert(u[upto - 1] == a + 1);
        assert(weighted_count_sum(u, upto) == weighted_count_sum(u, upto - 1) + upto * (a + 1));
        assert(weighted_count_sum(s, upto) == weighted_count_sum(s, upto - 1) + upto * a);
        assert(upto * (a + 1) == upto * a + upto) by (nonlinear_arith);
    } else {
        lemma_weighted_sum_update(s, j, upto - 1);
        assert(u[upto - 1] == s[upto - 1]);
    }
}

/// Start offsets grow at least as fast as cycle indices, so there are
/// never more cycles than elements.
pub proof fn lemma_starts_at_least_index(ev: Seq<usize>, sv: Seq<usize>, c: int)
    requires
        wf_starts(ev, sv),
        0 <= c < sv.len(),
    ensures
        sv[c] as int >= c,
    decreases c,
{
    if c > 0 {
        lemma_starts_at_least_index(ev, sv, c - 1);
        lemma_starts_increasing(ev, sv, c - 1, c);
    }
}

/// How many entries of a boolean sequence are set.
pub open spec fn count_true(s: Seq<bool>) -> int
    decreases s.len(),
{
    if s.len() == 0 {
        0
    } else {
        count_true(s.drop_last()) + if s.last() {
            1int
        } else {
            0int
        }
    }
}

pub proof fn lemma_count_true_le(s: Seq<bool>)
    ensures
        0 <= count_true(s) <= s.len(),
    decreases s.len(),
{
    if s.len() > 0 {
        lemma_count_true_le(s.drop_last());
    }
}

/// A sequence with an unset entry has fewer set entries than its length.
pub proof fn lemma_count_true_lt(s: Seq<bool>, j: int)
    requires
        0 <= j < s.len(),
        !s[j],
    ensures
        count_true(s) < s.len(),
    decreases s.len(),
{
    lemma_count_true_le(s.drop_last());
    if j < s.len() - 1 {
        lemma_count_true_lt(s.drop_last(), j);
    }
}

/// Setting one unset entry raises the count by exactly one.
pub proof fn lemma_count_true_update(s: Seq<bool>, j: int)
    requires
        0 <= j < s.len(),
        !s[j],
    ensures
        count_true(s.update(j, true)) == count_true(s) + 1,
    decreases s.len(),
{
    let u = s.update(j, true);
    if j == s.len() - 1 {
        assert(u.drop_last() =~= s.drop_last());
    } else {
        assert(u.drop_last() =~= s.drop_last().update(j, true));
        lemma_count_true_update(s.drop_last(), j);
    }
}

/// A fully unset sequence has count zero.
pub proof fn lemma_count_true_none(s: Seq<bool>)
    requires
        forall|j: int| 0 <= j < s.len() ==> !s[j],
    ensures
        count_true(s) == 0,
    decreases s.len(),
{
    if s.len() > 0 {
        lemma_count_true_none(s.drop_last());
    }
}

/// A fully set sequence has count equal to its length.
pub proof fn lemma_count_true_full(s: Seq<bool>)
    requires
        forall|j: int| 0 <= j < s.len() ==> s[j],
    ensures
        count_true(s) == s.len(),
    decreases s.len(),
{
    if s.len() > 0 {
        lemma_count_true_full(s.drop_last());
    }
}

} // verus!

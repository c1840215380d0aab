//! The algebraic laws of the library, stated over the mathematical
//! model that the executable functions' contracts use.

use vstd::prelude::*;

use crate::model::application;
use crate::model::composition;
use crate::model::count_runs_with_length;
use crate::model::has_source;
use crate::model::identity_permutation;
use crate::model::in_run;
use crate::model::is_inverse_of;
use crate::model::is_normalized;
use crate::model::leading_decreasing;
use crate::model::is_permutation;
use crate::model::lemma_position_in_some_run;
use crate::model::lemma_run_length_sum;
use crate::model::lemma_starts_increasing;
use crate::model::max_first;
use crate::model::represents;
use crate::model::rotation_permutation;
use crate::model::run_end;
use crate::model::run_length;
use crate::model::run_length_sum;
use crate::model::successor_position;
use crate::model::wf_decomposition;
use crate::model::wf_starts;

verus! {

/// Inversion is an involution: inverting the inverse of a table
/// gives back the table itself.
pub proof fn lemma_invert_involutive(t: Seq<usize>, r: Seq<usize>, u: Seq<usize>)
    requires
        is_permutation(t),
        is_inverse_of(r, t),
        is_inverse_of(u, r),
    ensures
        u == t,
{
    assert forall|i: int| 0 <= i < t.len() implies u[i] == t[i] by {
        assert(r[t[i] as int] == i);
        assert(u[r[t[i] as int] as int] == t[i]);
    }
    assert(u =~= t);
}

/// The identity table is neutral for composition, on either side.
pub proof fn lemma_compose_identity(t: Seq<usize>)
    requires
        is_permutation(t),
        t.len() <= usize::MAX,
    ensures
        composition(t, identity_permutation(t.len())) == t,
        composition(identity_permutation(t.len()), t) == t,
{
    let n = t.len();
    let idp = identity_permutation(n);
    assert forall|i: int| 0 <= i < n implies composition(t, idp)[i] == t[i] by {
        assert(idp[i] == i);
    }
    assert forall|i: int| 0 <= i < n implies composition(idp, t)[i] == t[i] by {
        assert(t[i] < n);
        assert(idp[t[i] as int] == t[i]);
    }
    assert(composition(t, idp) =~= t);
    assert(composition(idp, t) =~= t);
}

/// Acting by a composition is acting by the right factor first and
/// then by the left one: `act(compose(a, b), x) == act(a, act(b, x))`.
pub proof fn lemma_action_composition(a: Seq<usize>, b: Seq<usize>, x: usize)
    requires
        is_permutation(a),
        is_permutation(b),
        a.len() == b.len(),
        a.len() > 0,
    ensures
        application(composition(a, b), x) == application(a, application(b, x)),
{
    let n = a.len() as int;
    let i = (x as int) % n;
    assert(0 <= i < n) by (nonlinear_arith)
        requires
            n > 0,
            x >= 0,
            i == (x as int) % n,
    ;
    let w = b[i];
    assert((w as int) % n == w as int) by (nonlinear_arith)
        requires
            0 <= w < n,
    ;
}

/// A table composed with its inverse, on either side, is the identity.
pub proof fn lemma_compose_inverse(t: Seq<usize>, r: Seq<usize>)
    requires
        is_permutation(t),
        is_inverse_of(r, t),
        t.len() <= usize::MAX,
    ensures
        composition(t, r) == identity_permutation(t.len()),
        composition(r, t) == identity_permutation(t.len()),
{
    let n = t.len();
    assert forall|i: int| 0 <= i < n implies composition(r, t)[i] == i by {
        assert(r[t[i] as int] == i);
    }
    assert forall|i: int| 0 <= i < n implies composition(t, r)[i] == i by {
        assert(has_source(t, i));
        let j = choose|j: int| 0 <= j < n && #[trigger] t[j] == i;
        assert(r[t[j] as int] == j);
        assert(t[r[i] as int] == i);
    }
    assert(composition(t, r) =~= identity_permutation(n));
    assert(composition(r, t) =~= identity_permutation(n));
}

/// Converting a table to its cycle decomposition and the decomposition
/// back to a table reproduces the original exactly: a well-formed
/// decomposition denotes exactly one table.
pub proof fn lemma_conversion_round_trip(ev: Seq<usize>, sv: Seq<usize>, t: Seq<usize>, u: Seq<usize>)
    requires
        wf_decomposition(ev, sv),
        represents(ev, sv, t),
        represents(ev, sv, u),
    ensures
        t == u,
{
    crate::model::lemma_represented_table_unique(ev, sv, t, u);
}

/// The `k`-fold application of a table to a value.
pub open spec fn iterate(t: Seq<usize>, k: nat, x: usize) -> usize
    decreases k,
{
    if k == 0 {
        x
    } else {
        t[iterate(t, (k - 1) as nat, x) as int]
    }
}

/// Iterating in two stages is iterating once for the total count.
pub proof fn lemma_iterate_additive(t: Seq<usize>, a: nat, b: nat, x: usize)
    ensures
        iterate(t, a + b, x) == iterate(t, b, iterate(t, a, x)),
    decreases b,
{
    if b > 0 {
        lemma_iterate_additive(t, a, (b - 1) as nat, x);
    }
}

/// Within a cycle, the element at offset `j` is the `j`-th iterate of
/// the cycle's leading element.
pub proof fn lemma_run_element_is_iterate(
    ev: Seq<usize>,
    sv: Seq<usize>,
    t: Seq<usize>,
    c: int,
    j: int,
)
    requires
        wf_decomposition(ev, sv),
        represents(ev, sv, t),
        0 <= c < sv.len(),
        0 <= j < run_length(ev, sv, c),
    ensures
        ev[sv[c] + j] == iterate(t, j as nat, ev[sv[c] as int]),
    decreases j,
{
    if j > 0 {
        lemma_run_element_is_iterate(ev, sv, t, c, j - 1);
        assert(in_run(ev, sv, c, sv[c] + j - 1));
        assert(successor_position(ev, sv, c, sv[c] + j - 1) == sv[c] + j);
        assert(t[ev[sv[c] + j - 1] as int] == ev[sv[c] + j]);
    }
}

/// A cycle wraps around: iterating for the cycle's full length returns
/// to the leading element.
pub proof fn lemma_run_wraps(ev: Seq<usize>, sv: Seq<usize>, t: Seq<usize>, c: int)
    requires
        wf_decomposition(ev, sv),
        represents(ev, sv, t),
        0 <= c < sv.len(),
    ensures
        iterate(t, run_length(ev, sv, c) as nat, ev[sv[c] as int]) == ev[sv[c] as int],
{
    let ell = run_length(ev, sv, c);
    lemma_run_element_is_iterate(ev, sv, t, c, ell - 1);
    assert(in_run(ev, sv, c, sv[c] + ell - 1));
    assert(successor_position(ev, sv, c, sv[c] + ell - 1) == sv[c] as int);
    assert(t[ev[sv[c] + ell - 1] as int] == ev[sv[c] as int]);
}

/// Every iterate of a cycle's leading element stays inside the cycle.
pub proof fn lemma_iterate_in_run(ev: Seq<usize>, sv: Seq<usize>, t: Seq<usize>, c: int, k: nat)
    requires
        wf_decomposition(ev, sv),
        represents(ev, sv, t),
        0 <= c < sv.len(),
    ensures
        exists|j: int|
            0 <= j < run_length(ev, sv, c) && #[trigger] ev[sv[c] + j] == iterate(
                t,
                k,
                ev[sv[c] as int],
            ),
    decreases k,
{
    let ell = run_length(ev, sv, c);
    let lead = ev[sv[c] as int];
    if k < ell {
        lemma_run_element_is_iterate(ev, sv, t, c, k as int);
        assert(ev[sv[c] + k] == iterate(t, k, lead));
    } else {
        lemma_run_wraps(ev, sv, t, c);
        lemma_iterate_additive(t, ell as nat, (k - ell) as nat, lead);
        lemma_iterate_in_run(ev, sv, t, c, (k - ell) as nat);
        assert(iterate(t, k, lead) == iterate(t, (k - ell) as nat, lead));
    }
}

/// The leading element of one cycle holding `x` never exceeds the
/// leading element of another max-led cycle holding `x`: it is one of
/// the iterates of `x`, hence an element of the other cycle too.
#[verifier::rlimit(100)]
proof fn lemma_other_leader_le(
    ev1: Seq<usize>,
    sv1: Seq<usize>,
    ev2: Seq<usize>,
    sv2: Seq<usize>,
    t: Seq<usize>,
    c1: int,
    c2: int,
    p1: int,
    p2: int,
)
    requires
        wf_decomposition(ev1, sv1),
        wf_decomposition(ev2, sv2),
        represents(ev1, sv1, t),
        represents(ev2, sv2, t),
        max_first(ev1, sv1),
        in_run(ev1, sv1, c1, p1),
        in_run(ev2, sv2, c2, p2),
        ev1[p1] == ev2[p2],
    ensures
        ev2[sv2[c2] as int] <= ev1[sv1[c1] as int],
{
    let a1 = ev1[sv1[c1] as int];
    let a2 = ev2[sv2[c2] as int];
    let o1 = p1 - sv1[c1];
    let o2 = p2 - sv2[c2];
    let ell2 = run_length(ev2, sv2, c2);
    let x = ev1[p1];
    lemma_run_element_is_iterate(ev1, sv1, t, c1, o1);
    lemma_run_element_is_iterate(ev2, sv2, t, c2, o2);
    assert(x == iterate(t, o1 as nat, a1));
    assert(x == iterate(t, o2 as nat, a2));
    lemma_run_wraps(ev2, sv2, t, c2);
    lemma_iterate_additive(t, o2 as nat, (ell2 - o2) as nat, a2);
    assert(a2 == iterate(t, (ell2 - o2) as nat, x));
    lemma_iterate_additive(t, o1 as nat, (ell2 - o2) as nat, a1);
    assert(a2 == iterate(t, (o1 + ell2 - o2) as nat, a1));
    lemma_iterate_in_run(ev1, sv1, t, c1, (o1 + ell2 - o2) as nat);
    let j1 = choose|j: int|
        0 <= j < run_length(ev1, sv1, c1) && #[trigger] ev1[sv1[c1] + j] == iterate(
            t,
            (o1 + ell2 - o2) as nat,
            ev1[sv1[c1] as int],
        );
    assert(ev1[sv1[c1] + j1] == a2);
    if j1 > 0 {
        assert(in_run(ev1, sv1, c1, sv1[c1] + j1));
        assert(a2 < a1);
    }
}

/// Two canonical cycles that share an element share their leading
/// element: each cycle's elements are exactly the iterates of the
/// shared element, so the two cycles carry the same elements and in
/// particular the same largest one, which leads both.
proof fn lemma_leaders_match(
    ev1: Seq<usize>,
    sv1: Seq<usize>,
    ev2: Seq<usize>,
    sv2: Seq<usize>,
    t: Seq<usize>,
    c1: int,
    c2: int,
    p1: int,
    p2: int,
)
    requires
        wf_decomposition(ev1, sv1),
        wf_decomposition(ev2, sv2),
        represents(ev1, sv1, t),
        represents(ev2, sv2, t),
        max_first(ev1, sv1),
        max_first(ev2, sv2),
        in_run(ev1, sv1, c1, p1),
        in_run(ev2, sv2, c2, p2),
        ev1[p1] == ev2[p2],
    ensures
        ev1[sv1[c1] as int] == ev2[sv2[c2] as int],
{
    lemma_other_leader_le(ev1, sv1, ev2, sv2, t, c1, c2, p1, p2);
    lemma_other_leader_le(ev2, sv2, ev1, sv1, t, c2, c1, p2, p1);
}

/// Two cycles of one permutation that begin with the same element are
/// identical: both list the iterates of that element, and both wrap
/// after one full orbit.
proof fn lemma_runs_equal_from_leaders(
    ev1: Seq<usize>,
    sv1: Seq<usize>,
    ev2: Seq<usize>,
    sv2: Seq<usize>,
    t: Seq<usize>,
    c1: int,
    c2: int,
)
    requires
        wf_decomposition(ev1, sv1),
        wf_decomposition(ev2, sv2),
        represents(ev1, sv1, t),
        represents(ev2, sv2, t),
        0 <= c1 < sv1.len(),
        0 <= c2 < sv2.len(),
        ev1[sv1[c1] as int] == ev2[sv2[c2] as int],
    ensures
        run_length(ev1, sv1, c1) == run_length(ev2, sv2, c2),
        forall|j: int|
            0 <= j < run_length(ev1, sv1, c1) ==> ev1[sv1[c1] + j] == ev2[#[trigger] (sv2[c2]
                + j)],
{
    let a = ev1[sv1[c1] as int];
    let ell1 = run_length(ev1, sv1, c1);
    let ell2 = run_length(ev2, sv2, c2);
    if ell1 < ell2 {
        lemma_run_wraps(ev1, sv1, t, c1);
        lemma_run_element_is_iterate(ev2, sv2, t, c2, ell1);
        assert(ev2[sv2[c2] + ell1] == a);
        assert(in_run(ev2, sv2, c2, sv2[c2] + ell1));
        assert(in_run(ev2, sv2, c2, sv2[c2] as int));
        assert(false);
    }
    if ell2 < ell1 {
        lemma_run_wraps(ev2, sv2, t, c2);
        lemma_run_element_is_iterate(ev1, sv1, t, c1, ell2);
        assert(ev1[sv1[c1] + ell2] == a);
        assert(in_run(ev1, sv1, c1, sv1[c1] + ell2));
        assert(in_run(ev1, sv1, c1, sv1[c1] as int));
        assert(false);
    }
    assert forall|j: int|
        0 <= j < run_length(ev1, sv1, c1) implies ev1[sv1[c1] + j] == ev2[#[trigger] (sv2[c2]
        + j)] by {
        lemma_run_element_is_iterate(ev1, sv1, t, c1, j);
        lemma_run_element_is_iterate(ev2, sv2, t, c2, j);
    }
}

/// When two canonical decompositions agree strictly below position `s`
/// and both start a cycle there, the element leading the second one's
/// cycle at `s` is at least the element leading the first one's.
proof fn lemma_next_leader_ge(
    ev1: Seq<usize>,
    sv1: Seq<usize>,
    ev2: Seq<usize>,
    sv2: Seq<usize>,
    t: Seq<usize>,
    c: int,
    s: int,
)
    requires
        wf_decomposition(ev1, sv1),
        wf_decomposition(ev2, sv2),
        represents(ev1, sv1, t),
        represents(ev2, sv2, t),
        max_first(ev1, sv1),
        max_first(ev2, sv2),
        leading_decreasing(ev2, sv2),
        0 <= c < sv1.len(),
        c < sv2.len(),
        sv1[c] as int == s,
        sv2[c] as int == s,
        forall|p: int| 0 <= p < s ==> ev1[p] == ev2[p],
    ensures
        ev2[s] >= ev1[s],
{
    assert(in_run(ev1, sv1, c, s));
    assert(in_run(ev2, sv2, c, s));
    let x = ev1[s];
    assert(has_source(ev2, x as int));
    let q = choose|q: int| 0 <= q < ev2.len() && #[trigger] ev2[q] == x as int;
    assert(q >= s) by {
        if q < s {
            assert(ev1[q] == ev2[q]);
        }
    }
    lemma_position_in_some_run(ev2, sv2, q);
    let cq = choose|cc: int| #[trigger] in_run(ev2, sv2, cc, q);
    assert(cq >= c) by {
        if cq < c {
            if cq + 1 == c {
                assert(run_end(ev2, sv2, cq) == sv2[c] as int);
            } else {
                lemma_starts_increasing(ev2, sv2, cq + 1, c);
                assert(run_end(ev2, sv2, cq) == sv2[cq + 1] as int);
            }
            assert(q < s);
            assert(false);
        }
    }
    lemma_leaders_match(ev1, sv1, ev2, sv2, t, c, cq, s, q);
    assert(x == ev2[sv2[cq] as int]);
    if c < cq {
        assert(ev2[sv2[c] as int] > ev2[sv2[cq] as int]);
    }
}

/// The inductive step of canonical uniqueness: once the first `c`
/// cycles of two canonical decompositions agree, their next cycles
/// start at the same offset with the same leading element, hence agree
/// as well.
/// One aligned cycle of two canonical decompositions: if they agree up
/// to a common cycle start, the cycles beginning there are identical,
/// extending the agreement to the next cycle boundary.
proof fn lemma_canonical_step(
    ev1: Seq<usize>,
    sv1: Seq<usize>,
    ev2: Seq<usize>,
    sv2: Seq<usize>,
    t: Seq<usize>,
    c: int,
)
    requires
        wf_decomposition(ev1, sv1),
        wf_decomposition(ev2, sv2),
        represents(ev1, sv1, t),
        represents(ev2, sv2, t),
        is_normalized(ev1, sv1),
        is_normalized(ev2, sv2),
        0 <= c < sv1.len(),
        c < sv2.len(),
        sv1[c] == sv2[c],
        forall|p: int| 0 <= p < sv1[c] as int ==> ev1[p] == ev2[p],
    ensures
        run_end(ev1, sv1, c) == run_end(ev2, sv2, c),
        forall|p: int| 0 <= p < run_end(ev1, sv1, c) ==> ev1[p] == ev2[p],
{
    let s = sv1[c] as int;
    assert(in_run(ev1, sv1, c, s));
    assert(in_run(ev2, sv2, c, s));
    lemma_next_leader_ge(ev1, sv1, ev2, sv2, t, c, s);
    lemma_next_leader_ge(ev2, sv2, ev1, sv1, t, c, s);
    assert(ev1[s] == ev2[s]);
    lemma_runs_equal_from_leaders(ev1, sv1, ev2, sv2, t, c, c);
    let ell = run_length(ev1, sv1, c);
    assert(run_end(ev1, sv1, c) == s + ell);
    assert(run_end(ev2, sv2, c) == s + ell);
    assert forall|p: int| 0 <= p < s + ell implies ev1[p] == ev2[p] by {
        if p >= s {
            assert(ev1[sv1[c] + (p - s)] == ev2[sv2[c] + (p - s)]);
        }
    }
}

#[verifier::rlimit(100)]
proof fn lemma_canonical_unique_from(
    ev1: Seq<usize>,
    sv1: Seq<usize>,
    ev2: Seq<usize>,
    sv2: Seq<usize>,
    t: Seq<usize>,
    c: int,
)
    requires
        wf_decomposition(ev1, sv1),
        wf_decomposition(ev2, sv2),
        represents(ev1, sv1, t),
        represents(ev2, sv2, t),
        is_normalized(ev1, sv1),
        is_normalized(ev2, sv2),
        0 <= c <= sv1.len(),
        c <= sv2.len(),
        forall|c2: int| 0 <= c2 < c ==> sv1[c2] == sv2[c2],
        (if c < sv1.len() {
            sv1[c] as int
        } else {
            ev1.len() as int
        }) == (if c < sv2.len() {
            sv2[c] as int
        } else {
            ev2.len() as int
        }),
        forall|p: int|
            0 <= p < (if c < sv1.len() {
                sv1[c] as int
            } else {
                ev1.len() as int
            }) ==> ev1[p] == ev2[p],
    ensures
        sv1.len() == sv2.len(),
        forall|c2: int| 0 <= c2 < sv1.len() ==> sv1[c2] == sv2[c2],
        forall|p: int| 0 <= p < ev1.len() ==> ev1[p] == ev2[p],
    decreases sv1.len() - c,
{
    let n = t.len() as int;
    let bound1: int = if c < sv1.len() {
        sv1[c] as int
    } else {
        ev1.len() as int
    };
    if c == sv1.len() {
        if c < sv2.len() {
            assert((sv2[c] as int) < ev2.len());
            assert(false);
        }
    } else if c == sv2.len() {
        assert((sv1[c] as int) < ev1.len());
        assert(false);
    } else {
        lemma_canonical_step(ev1, sv1, ev2, sv2, t, c);
        assert(run_end(ev1, sv1, c) == run_end(ev2, sv2, c));
        lemma_canonical_unique_from(ev1, sv1, ev2, sv2, t, c + 1);
    }
}

/// Canonical decompositions are unique: two normalized decompositions
/// that denote the same permutation are identical representations.
/// With `normalize`'s postcondition this says both that decompositions
/// of one permutation, however constructed, normalize to equal values,
/// and that normalization is idempotent.
pub proof fn lemma_normalized_unique(
    ev1: Seq<usize>,
    sv1: Seq<usize>,
    ev2: Seq<usize>,
    sv2: Seq<usize>,
    t: Seq<usize>,
)
    requires
        wf_decomposition(ev1, sv1),
        wf_decomposition(ev2, sv2),
        represents(ev1, sv1, t),
        represents(ev2, sv2, t),
        is_normalized(ev1, sv1),
        is_normalized(ev2, sv2),
    ensures
        ev1 == ev2,
        sv1 == sv2,
{
    lemma_canonical_unique_from(ev1, sv1, ev2, sv2, t, 0);
    assert(ev1 =~= ev2);
    assert(sv1 =~= sv2);
}

/// All cycles of the identity permutation are singletons, there are as
/// many of them as elements, and the cycle type counts them all at
/// length one.
pub proof fn lemma_identity_decomposition(ev: Seq<usize>, sv: Seq<usize>, n: nat)
    requires
        wf_decomposition(ev, sv),
        represents(ev, sv, identity_permutation(n)),
        ev.len() == n,
        n <= usize::MAX,
    ensures
        sv.len() == n,
        forall|c: int| 0 <= c < sv.len() ==> run_length(ev, sv, c) == 1,
        count_runs_with_length(ev, sv, 1, sv.len() as int) == n,
        forall|k: int|
            k != 1 ==> #[trigger] count_runs_with_length(ev, sv, k, sv.len() as int) == 0,
{
    let t = identity_permutation(n);
    assert forall|c: int| 0 <= c < sv.len() implies run_length(ev, sv, c) == 1 by {
        if run_length(ev, sv, c) > 1 {
            let s = sv[c] as int;
            assert(in_run(ev, sv, c, s));
            assert(successor_position(ev, sv, c, s) == s + 1);
            assert(t[ev[s] as int] == ev[s + 1]);
            assert(t[ev[s] as int] == ev[s]);
            assert(false);
        }
    }
    lemma_run_length_sum(ev, sv, sv.len() as int);
    lemma_singleton_counts(ev, sv, sv.len() as int);
}

proof fn lemma_singleton_counts(ev: Seq<usize>, sv: Seq<usize>, upto: int)
    requires
        0 <= upto <= sv.len(),
        forall|c: int| 0 <= c < sv.len() ==> run_length(ev, sv, c) == 1,
    ensures
        run_length_sum(ev, sv, upto) == upto,
        count_runs_with_length(ev, sv, 1, upto) == upto,
        forall|k: int| k != 1 ==> #[trigger] count_runs_with_length(ev, sv, k, upto) == 0,
    decreases upto,
{
    if upto > 0 {
        lemma_singleton_counts(ev, sv, upto - 1);
        assert(run_length(ev, sv, upto - 1) == 1);
        assert forall|k: int|
            k != 1 implies #[trigger] count_runs_with_length(ev, sv, k, upto) == 0 by {
            assert(count_runs_with_length(ev, sv, k, upto - 1) == 0);
        }
    }
}

/// Iterating the canonical rotation adds the iteration count, modulo `n`.
proof fn lemma_iterate_rotation(n: nat, k: nat, x: usize)
    requires
        n > 0,
        n <= usize::MAX,
        (x as int) < n,
    ensures
        iterate(rotation_permutation(n), k, x) as int == ((x + k) as int) % (n as int),
    decreases k,
{
    let t = rotation_permutation(n);
    let m = n as int;
    if k == 0 {
        assert((x as int) % m == x as int) by (nonlinear_arith)
            requires
                0 <= (x as int) < m,
        ;
    } else {
        lemma_iterate_rotation(n, (k - 1) as nat, x);
        let prev = iterate(t, (k - 1) as nat, x);
        assert(0 <= (prev as int) < m) by (nonlinear_arith)
            requires
                (prev as int) == ((x + k - 1) as int) % m,
                m > 0,
        ;
        assert(iterate(t, k, x) == t[prev as int]);
        if prev as int == m - 1 {
            assert(t[prev as int] == 0);
            assert(((x + k) as int) % m == 0) by (nonlinear_arith)
                requires
                    ((x + k - 1) as int) % m == m - 1,
                    m > 0,
            ;
        } else {
            assert(t[prev as int] as int == prev + 1);
            assert(((x + k) as int) % m == prev + 1) by (nonlinear_arith)
                requires
                    ((x + k - 1) as int) % m == prev as int,
                    0 <= (prev as int) < m - 1,
                    m > 0,
            ;
        }
    }
}

/// The canonical `n`-cycle decomposes into exactly one cycle, of length
/// `n`, so its cycle type counts a single cycle of full length.
pub proof fn lemma_rotation_single_cycle(ev: Seq<usize>, sv: Seq<usize>, n: nat)
    requires
        wf_decomposition(ev, sv),
        represents(ev, sv, rotation_permutation(n)),
        ev.len() == n,
        n > 0,
        n <= usize::MAX,
    ensures
        sv.len() == 1,
        run_length(ev, sv, 0) == n,
        count_runs_with_length(ev, sv, n as int, sv.len() as int) == 1,
        forall|k: int|
            k != n ==> #[trigger] count_runs_with_length(ev, sv, k, sv.len() as int) == 0,
{
    let t = rotation_permutation(n);
    let m = n as int;
    let ell = run_length(ev, sv, 0);
    let lead = ev[0];
    assert(sv[0] == 0);
    assert(in_run(ev, sv, 0, 0));
    if ell < m {
        let v = ev[ell] as int;
        let ld = lead as int;
        let j = if v >= ld {
            v - ld
        } else {
            v + m - ld
        };
        assert(0 <= j < m);
        lemma_iterate_rotation(n, j as nat, lead);
        assert(((ld + j) as int) % m == v) by (nonlinear_arith)
            requires
                0 <= v < m,
                ld + j == v || ld + j == v + m,
        ;
        assert(iterate(t, j as nat, lead) as int == v);
        lemma_iterate_in_run(ev, sv, t, 0, j as nat);
        let j2 = choose|jj: int|
            0 <= jj < run_length(ev, sv, 0) && #[trigger] ev[sv[0] + jj] == iterate(
                t,
                j as nat,
                ev[sv[0] as int],
            );
        assert(ev[j2] == ev[ell]);
        assert(j2 == ell);
        assert(false);
    }
    assert(ell == m);
    if sv.len() > 1 {
        lemma_starts_increasing(ev, sv, 0, 1);
        assert(run_end(ev, sv, 0) == sv[1] as int);
        assert((sv[1] as int) < m);
        assert(false);
    }
    assert(count_runs_with_length(ev, sv, n as int, 1) == count_runs_with_length(
        ev,
        sv,
        n as int,
        0,
    ) + 1);
    assert forall|k: int|
        k != n implies #[trigger] count_runs_with_length(ev, sv, k, sv.len() as int) == 0 by {
        assert(count_runs_with_length(ev, sv, k, 1) == count_runs_with_length(ev, sv, k, 0));
    }
}

} // verus!

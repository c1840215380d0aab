//! Permutations represented as cycle decompositions, and the
//! conversions between the two representations.

use vstd::prelude::*;

use crate::model::count_runs_with_length;
use crate::model::count_true;
use crate::model::has_source;
use crate::model::in_run;
use crate::model::is_permutation;
use crate::model::is_normalized;
use crate::model::leading_decreasing;
use crate::model::leading_increasing;
use crate::model::lemma_count_true_full;
use crate::model::lemma_count_true_le;
use crate::model::lemma_count_true_none;
use crate::model::lemma_count_true_update;
use crate::model::links_ok;
use crate::model::lemma_represented_table_unique;
use crate::model::max_first;
use crate::model::min_first;
use crate::model::represents;
use crate::model::lemma_weighted_sum_update;
use crate::model::lemma_weighted_sum_zero;
use crate::model::run_end;
use crate::model::run_length;
use crate::model::successor_position;
use crate::model::weighted_count_sum;
use crate::model::wf_decomposition;
use crate::model::wf_starts;
use crate::starts_buf::starts_seq;
use crate::starts_buf::StartsBuf;
use crate::table::Table;

verus! {

/// Represents a permutation as a cycle decomposition: a flat
/// enumeration of every element, partitioned into contiguous cycles by
/// an ordered buffer of start offsets. Within a cycle the elements are
/// listed in successor order.
///
/// If the table for a permutation looks like:
///
/// ```text
/// 0 1 2 3
/// | | | |
/// v v v v
/// 1 3 2 0
/// ```
///
/// then the cycle decomposition looks like:
///
/// ```text
/// (0 1 3) (2)
/// ```
///
/// Beware that the equality instance here will not check for equality
/// between group elements, but equality between their representations.
/// As such, one must normalize a decomposition before checking equality
/// in order to make sure the two refer to the same group element.
#[derive(Debug)]
pub struct CycleDecomposition {
    enumeration: Vec<usize>,
    starts: StartsBuf,
}

/// `x` occurs somewhere in the enumeration prefix `ev`.
pub open spec fn listed(ev: Seq<usize>, x: int) -> bool {
    exists|p: int| 0 <= p < ev.len() && (#[trigger] ev[p] as int) == x
}

/// `x` is the image under `t` of some marked element.
pub open spec fn image_of_marked(t: Seq<usize>, vis: Seq<bool>, x: int) -> bool {
    exists|y: int| 0 <= y < t.len() && vis[y] && (#[trigger] t[y] as int) == x
}

/// The bookkeeping of an orbit traversal: the enumeration built so far
/// holds distinct in-range elements, and the marks agree with it exactly.
pub open spec fn listing_ok(t: Seq<usize>, ev: Seq<usize>, vis: Seq<bool>) -> bool {
    &&& vis.len() == t.len()
    &&& count_true(vis) == ev.len()
    &&& forall|p: int| 0 <= p < ev.len() ==> (#[trigger] ev[p] as int) < t.len()
    &&& forall|p: int, q: int|
        0 <= p < ev.len() && 0 <= q < ev.len() && p != q ==> ev[p] != ev[q]
    &&& forall|x: int| 0 <= x < t.len() ==> (vis[x] <==> #[trigger] listed(ev, x))
}

/// A traversal state whose marked set is closed: every marked element
/// is the image under the table of some marked element.
pub open spec fn traversal_state(t: Seq<usize>, ev: Seq<usize>, vis: Seq<bool>) -> bool {
    &&& listing_ok(t, ev, vis)
    &&& forall|x: int| 0 <= x < t.len() && vis[x] ==> #[trigger] image_of_marked(t, vis, x)
}

/// Position `p` of the enumeration holds the image under `t` of the
/// element listed just before it.
pub open spec fn chain_link(t: Seq<usize>, ev: Seq<usize>, p: int) -> bool {
    ev[p] == t[ev[p - 1] as int]
}

/// Marking one unlisted element and appending it to the enumeration
/// keeps the traversal bookkeeping intact.
proof fn lemma_listing_extend(t: Seq<usize>, ev: Seq<usize>, vis: Seq<bool>, j: usize)
    requires
        listing_ok(t, ev, vis),
        (j as int) < t.len(),
        !vis[j as int],
    ensures
        listing_ok(t, ev.push(j), vis.update(j as int, true)),
        forall|q: int| 0 <= q < ev.len() ==> ev[q] != j,
{
    let evn = ev.push(j);
    let visn = vis.update(j as int, true);
    let ln = evn.len() as int;
    lemma_count_true_update(vis, j as int);
    assert forall|q: int| 0 <= q < ev.len() implies ev[q] != j by {
        assert(listed(ev, ev[q] as int));
    }
    assert forall|x: int| 0 <= x < t.len() implies (visn[x] <==> #[trigger] listed(evn, x)) by {
        if x == j as int {
            assert(evn[ln - 1] as int == x);
            assert(listed(evn, x));
        } else {
            if listed(evn, x) {
                let p = choose|p: int| 0 <= p < ln && (#[trigger] evn[p] as int) == x;
                assert(p < ln - 1);
                assert(ev[p] as int == x);
                assert(listed(ev, x));
            }
            if listed(ev, x) {
                let p = choose|p: int| 0 <= p < ev.len() && (#[trigger] ev[p] as int) == x;
                assert(evn[p] as int == x);
                assert(listed(evn, x));
            }
        }
    }
}

/// Mid-walk, the next element to visit is still unmarked: it cannot lie
/// in a finished cycle (those are closed under the table and under its
/// inverse), nor earlier in the present chain (the table is injective
/// and the chain has not wrapped around yet).
proof fn lemma_next_unvisited(
    t: Seq<usize>,
    ev0: Seq<usize>,
    vis0: Seq<bool>,
    evn: Seq<usize>,
    visn: Seq<bool>,
    seed: usize,
    jnext: usize,
)
    requires
        is_permutation(t),
        listing_ok(t, evn, visn),
        listing_ok(t, ev0, vis0),
        forall|x: int| 0 <= x < t.len() && vis0[x] ==> #[trigger] image_of_marked(t, vis0, x),
        ev0.len() < evn.len(),
        evn.subrange(0, ev0.len() as int) == ev0,
        evn[ev0.len() as int] == seed,
        forall|p: int| ev0.len() < p < evn.len() ==> #[trigger] chain_link(t, evn, p),
        (seed as int) < t.len(),
        jnext == t[evn[evn.len() - 1] as int],
        jnext != seed,
    ensures
        !visn[jnext as int],
{
    let b = ev0.len() as int;
    let ln = evn.len() as int;
    let jold = evn[ln - 1];
    if visn[jnext as int] {
        assert(listed(evn, jnext as int));
        let p = choose|p: int| 0 <= p < ln && (#[trigger] evn[p] as int) == jnext as int;
        if p == b {
            assert(evn[b] == seed);
            assert(false);
        } else if p > b {
            assert(chain_link(t, evn, p));
            assert(t[evn[p - 1] as int] == t[jold as int]);
            assert(evn[p - 1] == jold);
            assert(p - 1 == ln - 1);
            assert(false);
        } else {
            assert(evn.subrange(0, b)[p] == evn[p]);
            assert(ev0[p] as int == jnext as int);
            assert(listed(ev0, jnext as int));
            assert(vis0[jnext as int]);
            assert(image_of_marked(t, vis0, jnext as int));
            let y = choose|y: int|
                0 <= y < t.len() && vis0[y] && (#[trigger] t[y] as int) == jnext as int;
            assert(t[jold as int] == jnext);
            assert(y == jold as int);
            assert(listed(ev0, jold as int));
            let q = choose|q: int| 0 <= q < b && (#[trigger] ev0[q] as int) == jold as int;
            assert(evn.subrange(0, b)[q] == evn[q]);
            assert(evn[q] == jold);
            assert(q == ln - 1);
            assert(false);
        }
    }
}

/// After a finished walk, every marked element is again the image of a
/// marked element: the old marks were closed already, and the new chain
/// closes through its final wrap-around link back to the seed.
proof fn lemma_walk_closure(
    t: Seq<usize>,
    ev0: Seq<usize>,
    vis0: Seq<bool>,
    evn: Seq<usize>,
    visn: Seq<bool>,
    seed: usize,
)
    requires
        listing_ok(t, evn, visn),
        listing_ok(t, ev0, vis0),
        forall|x: int| 0 <= x < t.len() && vis0[x] ==> #[trigger] image_of_marked(t, vis0, x),
        ev0.len() < evn.len(),
        evn.subrange(0, ev0.len() as int) == ev0,
        evn[ev0.len() as int] == seed,
        forall|p: int| ev0.len() < p < evn.len() ==> #[trigger] chain_link(t, evn, p),
        t[evn[evn.len() - 1] as int] == seed,
    ensures
        forall|x: int| 0 <= x < t.len() && visn[x] ==> #[trigger] image_of_marked(t, visn, x),
        forall|x: int| 0 <= x < t.len() && vis0[x] ==> visn[x],
{
    let b = ev0.len() as int;
    let ln = evn.len() as int;
    assert forall|x: int| 0 <= x < t.len() && vis0[x] implies visn[x] by {
        assert(listed(ev0, x));
        let p = choose|p: int| 0 <= p < b && (#[trigger] ev0[p] as int) == x;
        assert(evn.subrange(0, b)[p] == evn[p]);
        assert(evn[p] as int == x);
        assert(listed(evn, x));
    }
    assert forall|x: int|
        0 <= x < t.len() && visn[x] implies #[trigger] image_of_marked(t, visn, x) by {
        assert(listed(evn, x));
        let p = choose|p: int| 0 <= p < ln && (#[trigger] evn[p] as int) == x;
        if p < b {
            assert(evn.subrange(0, b)[p] == evn[p]);
            assert(ev0[p] as int == x);
            assert(listed(ev0, x));
            assert(vis0[x]);
            assert(image_of_marked(t, vis0, x));
            let y = choose|y: int| 0 <= y < t.len() && vis0[y] && (#[trigger] t[y] as int) == x;
            assert(visn[y]);
            assert(image_of_marked(t, visn, x));
        } else {
            let pr = if p == b {
                ln - 1
            } else {
                p - 1
            };
            if p > b {
                assert(chain_link(t, evn, p));
            }
            let y = evn[pr] as int;
            assert(listed(evn, evn[pr] as int));
            assert(visn[y]);
            assert(t[y] as int == x);
            assert(image_of_marked(t, visn, x));
        }
    }
}

/// Walks the orbit of `seed` under `table`, appending the orbit to the
/// enumeration in successor order starting from `seed` and marking its
/// elements visited.
fn walk_orbit(table: &Table, visited: &mut Vec<bool>, enumeration: &mut Vec<usize>, seed: usize)
    requires
        table.wf(),
        seed < table@.len(),
        !old(visited)@[seed as int],
        traversal_state(table@, old(enumeration)@, old(visited)@),
    ensures
        traversal_state(table@, final(enumeration)@, final(visited)@),
        final(enumeration)@.len() > old(enumeration)@.len(),
        final(enumeration)@.len() <= table@.len(),
        final(enumeration)@.subrange(0, old(enumeration)@.len() as int) == old(enumeration)@,
        final(enumeration)@[old(enumeration)@.len() as int] == seed,
        forall|p: int|
            old(enumeration)@.len() < p < final(enumeration)@.len()
                ==> #[trigger] chain_link(table@, final(enumeration)@, p),
        table@[final(enumeration)@[final(enumeration)@.len() - 1] as int] == seed,
        forall|p: int|
            old(enumeration)@.len() <= p < final(enumeration)@.len()
                ==> !old(visited)@[#[trigger] final(enumeration)@[p] as int],
        forall|x: int| 0 <= x < table@.len() && #[trigger] old(visited)@[x] ==> final(visited)@[x],
{
    let ghost n = table@.len() as int;
    let ghost ev0 = enumeration@;
    let ghost vis0 = visited@;
    let ghost b = ev0.len() as int;
    proof {
        assert(enumeration@.subrange(0, b) =~= ev0);
    }
    let mut j = seed;
    loop
        invariant_except_break
            !visited@[j as int],
            enumeration@.len() > b ==> j != seed,
        invariant
            table.wf(),
            n == table@.len(),
            seed < n,
            (j as int) < n,
            b == ev0.len(),
            enumeration@.len() >= b,
            enumeration@.subrange(0, b) == ev0,
            listing_ok(table@, enumeration@, visited@),
            listing_ok(table@, ev0, vis0),
            forall|x: int| 0 <= x < n && vis0[x] ==> #[trigger] image_of_marked(table@, vis0, x),
            forall|x: int| 0 <= x < n && #[trigger] vis0[x] ==> visited@[x],
            enumeration@.len() == b ==> j == seed,
            enumeration@.len() > b ==> enumeration@[b] == seed,
            forall|p: int|
                b < p < enumeration@.len() ==> #[trigger] chain_link(table@, enumeration@, p),
            enumeration@.len() > b ==> j == table@[enumeration@[enumeration@.len() - 1] as int],
            forall|p: int|
                b <= p < enumeration@.len() ==> !vis0[#[trigger] enumeration@[p] as int],
        ensures
            j == seed,
            enumeration@.len() > b,
            enumeration@.subrange(0, b) == ev0,
            listing_ok(table@, enumeration@, visited@),
            enumeration@[b] == seed,
            forall|p: int|
                b < p < enumeration@.len() ==> #[trigger] chain_link(table@, enumeration@, p),
            j == table@[enumeration@[enumeration@.len() - 1] as int],
            forall|p: int|
                b <= p < enumeration@.len() ==> !vis0[#[trigger] enumeration@[p] as int],
        decreases n - count_true(visited@),
    {
        let ghost vpre = visited@;
        let ghost epre = enumeration@;
        let ghost jold = j;
        proof {
            lemma_listing_extend(table@, epre, vpre, jold);
            lemma_count_true_le(vpre.update(jold as int, true));
        }
        visited[j] = true;
        enumeration.push(j);
        proof {
            assert(enumeration@ == epre.push(jold));
            assert(visited@ == vpre.update(jold as int, true));
            assert(enumeration@.subrange(0, b) =~= epre.subrange(0, b));
            let ln = enumeration@.len() as int;
            assert forall|p: int|
                b < p < ln implies #[trigger] chain_link(table@, enumeration@, p) by {
                if p < ln - 1 {
                    assert(chain_link(table@, epre, p));
                    assert(epre[p] == enumeration@[p]);
                    assert(epre[p - 1] == enumeration@[p - 1]);
                } else {
                    assert(enumeration@[ln - 1] == jold);
                    assert(epre.len() == ln - 1);
                    assert(jold == table@[epre[ln - 2] as int]);
                    assert(epre[ln - 2] == enumeration@[ln - 2]);
                }
            }
            assert(!vis0[jold as int]);
        }
        j = table.get(j);
        if j == seed {
            break ;
        }
        proof {
            lemma_next_unvisited(table@, ev0, vis0, enumeration@, visited@, seed, j);
        }
    }
    proof {
        lemma_walk_closure(table@, ev0, vis0, enumeration@, visited@, seed);
        lemma_count_true_le(visited@);
    }
}

/// Appending a freshly walked orbit as one more cycle keeps the
/// decomposition invariants: the finished cycles are untouched, the new
/// cycle's links come from the walk, its elements all exceed the seed
/// (everything smaller was already visited), and the seed leads it.
#[verifier::rlimit(100)]
proof fn lemma_record_cycle(
    t: Seq<usize>,
    evp: Seq<usize>,
    svp: Seq<usize>,
    evn: Seq<usize>,
    svn: Seq<usize>,
    vis0: Seq<bool>,
    seed: usize,
)
    requires
        wf_starts(evp, svp),
        links_ok(evp, svp, t),
        min_first(evp, svp),
        leading_increasing(evp, svp),
        forall|c: int| 0 <= c < svp.len() ==> (evp[#[trigger] svp[c] as int] as int) < seed,
        svn == svp.push(evp.len() as usize),
        evp.len() <= usize::MAX,
        evn.len() > evp.len(),
        evn.subrange(0, evp.len() as int) == evp,
        evn[evp.len() as int] == seed,
        forall|p: int| evp.len() < p < evn.len() ==> #[trigger] chain_link(t, evn, p),
        t[evn[evn.len() - 1] as int] == seed,
        forall|p: int| evp.len() <= p < evn.len() ==> !vis0[#[trigger] evn[p] as int],
        forall|x: int| 0 <= x < seed ==> vis0[x],
        forall|p: int| 0 <= p < evn.len() ==> (#[trigger] evn[p] as int) < t.len(),
        forall|p: int, q: int|
            0 <= p < evn.len() && 0 <= q < evn.len() && p != q ==> evn[p] != evn[q],
        (seed as int) < t.len(),
    ensures
        wf_starts(evn, svn),
        links_ok(evn, svn, t),
        min_first(evn, svn),
        leading_increasing(evn, svn),
        forall|c: int| 0 <= c < svn.len() ==> (evn[#[trigger] svn[c] as int] as int) < seed + 1,
{
    let b = evp.len() as int;
    let m = svp.len() as int;
    let ln = evn.len() as int;
    assert forall|p: int| 0 <= p < b implies evn[p] == evp[p] by {
        assert(evn.subrange(0, b)[p] == evn[p]);
    }
    assert forall|c: int|
        0 <= c < m implies (svp[c] as int) < b && run_end(evp, svp, c) <= b && run_end(
        evn,
        svn,
        c,
    ) == run_end(evp, svp, c) by {
        if c + 1 < m {
            assert(run_end(evp, svp, c) == svp[c + 1] as int);
            assert((svp[c + 1] as int) < b);
            assert(run_end(evn, svn, c) == svn[c + 1] as int);
        } else {
            assert(run_end(evp, svp, c) == b);
            assert(run_end(evn, svn, c) == svn[c + 1] as int);
            assert(svn[c + 1] == evp.len() as usize);
        }
    }
    if m == 0 {
        assert(b == 0);
    }
    assert(wf_starts(evn, svn));
    assert forall|c: int, p: int|
        #[trigger] in_run(evn, svn, c, p) implies t[evn[p] as int] == evn[successor_position(
        evn,
        svn,
        c,
        p,
    )] by {
        if c < m {
            assert(in_run(evp, svp, c, p));
            assert(t[evp[p] as int] == evp[successor_position(evp, svp, c, p)]);
            crate::model::lemma_successor_in_run(evp, svp, c, p);
            assert(successor_position(evn, svn, c, p) == successor_position(evp, svp, c, p));
        } else {
            assert(c == m);
            assert(svn[m] as int == b);
            assert(run_end(evn, svn, m) == ln);
            if p + 1 < ln {
                assert(chain_link(t, evn, p + 1));
                assert(successor_position(evn, svn, c, p) == p + 1);
            } else {
                assert(p == ln - 1);
                assert(successor_position(evn, svn, c, p) == b);
                assert(evn[b] == seed);
            }
        }
    }
    assert forall|c: int, p: int|
        #[trigger] in_run(evn, svn, c, p) && p > svn[c] implies evn[p] > evn[svn[c] as int] by {
        if c < m {
            assert(in_run(evp, svp, c, p));
            assert(evp[p] > evp[svp[c] as int]);
        } else {
            assert(c == m && svn[m] as int == b);
            assert(!vis0[evn[p] as int]);
            assert((evn[p] as int) >= seed);
            assert(evn[p] != evn[b]);
            assert(evn[b] == seed);
        }
    }
    assert forall|c1: int, c2: int|
        0 <= c1 < c2 < svn.len() implies evn[#[trigger] svn[c1] as int] < evn[#[trigger] svn[c2] as int] by {
        if c2 < m {
            assert(evp[svp[c1] as int] < evp[svp[c2] as int]);
        } else {
            assert(c2 == m);
            assert((evp[svp[c1] as int] as int) < seed);
            assert(evn[svn[c2] as int] == seed);
        }
    }
}

impl CycleDecomposition {
    /// The flat enumeration: every element exactly once, each cycle
    /// contiguous and in successor order.
    pub closed spec fn elements(&self) -> Seq<usize> {
        self.enumeration@
    }

    /// The start offsets of the cycles into the enumeration.
    pub closed spec fn cycle_starts(&self) -> Seq<usize> {
        starts_seq(self.starts)
    }

    /// The size of the underlying set.
    pub open spec fn size(&self) -> nat {
        self.elements().len()
    }

    /// The decomposition is a genuine partition of `0..n` into cycles.
    pub open spec fn wf(&self) -> bool {
        wf_decomposition(self.elements(), self.cycle_starts())
    }

    /// Builds the cycle decomposition of `table` by orbit traversal:
    /// repeatedly seed a new cycle with the lowest element not yet
    /// listed and walk its orbit in successor order. Each cycle is
    /// therefore led by its smallest element, and cycles appear in
    /// increasing order of their leading elements.
    #[verifier::rlimit(100)]
    pub fn from_table(table: &Table) -> (r: CycleDecomposition)
        requires
            table.wf(),
        ensures
            r.wf(),
            r.size() == table@.len(),
            represents(r.elements(), r.cycle_starts(), table@),
            min_first(r.elements(), r.cycle_starts()),
            leading_increasing(r.elements(), r.cycle_starts()),
    {
        let n = table.len();
        let mut enumeration: Vec<usize> = Vec::new();
        let mut starts = StartsBuf::new();
        let mut visited: Vec<bool> = Vec::new();
        let mut i: usize = 0;
        while i < n
            invariant
                i <= n,
                visited@.len() == i,
                forall|x: int| 0 <= x < i ==> !visited@[x],
            decreases n - i,
        {
            visited.push(false);
            i = i + 1;
        }
        proof {
            lemma_count_true_none(visited@);
        }
        let mut seed: usize = 0;
        while seed < n
            invariant
                table.wf(),
                n == table@.len(),
                seed <= n,
                traversal_state(table@, enumeration@, visited@),
                enumeration@.len() <= n,
                forall|x: int| 0 <= x < seed ==> visited@[x],
                wf_starts(enumeration@, starts_seq(starts)),
                links_ok(enumeration@, starts_seq(starts), table@),
                min_first(enumeration@, starts_seq(starts)),
                leading_increasing(enumeration@, starts_seq(starts)),
                forall|c: int|
                    0 <= c < starts_seq(starts).len() ==> (enumeration@[#[trigger] starts_seq(
                        starts,
                    )[c] as int] as int) < seed,
            decreases n - seed,
        {
            if !visited[seed] {
                let ghost evp = enumeration@;
                let ghost svp = starts_seq(starts);
                let ghost vis0 = visited@;
                let here = enumeration.len();
                starts.push(here);
                walk_orbit(table, &mut visited, &mut enumeration, seed);
                proof {
                    lemma_record_cycle(
                        table@,
                        evp,
                        svp,
                        enumeration@,
                        starts_seq(starts),
                        vis0,
                        seed,
                    );
                    assert(listed(enumeration@, seed as int));
                    assert(visited@[seed as int]);
                    assert forall|x: int| 0 <= x < seed + 1 implies visited@[x] by {
                        if x < seed {
                            assert(vis0[x]);
                        }
                    }
                }
            }
            seed = seed + 1;
        }
        proof {
            lemma_count_true_full(visited@);
            assert(enumeration@.len() == n);
            assert forall|v: int| 0 <= v < n implies #[trigger] has_source(enumeration@, v) by {
                assert(visited@[v]);
                assert(listed(enumeration@, v));
                let p = choose|p: int|
                    0 <= p < enumeration@.len() && (#[trigger] enumeration@[p] as int) == v;
                assert(enumeration@[p] == v);
            }
        }
        CycleDecomposition { enumeration, starts }
    }
}

impl Table {
    /// Rebuilds the mapping table a decomposition denotes: within every
    /// cycle, each listed element is sent to the next one, and the last
    /// wraps around to the cycle's first. This inverts the orbit
    /// traversal exactly, whichever element leads each cycle.
    #[verifier::rlimit(50)]
    pub fn from_decomposition(d: &CycleDecomposition) -> (r: Table)
        requires
            d.wf(),
        ensures
            r@.len() == d.size(),
            represents(d.elements(), d.cycle_starts(), r@),
            r.wf(),
    {
        let ghost ev = d.elements();
        let ghost sv = d.cycle_starts();
        let n = d.enumeration.len();
        let m = d.starts.len();
        let mut out: Vec<usize> = Vec::new();
        let mut i: usize = 0;
        while i < n
            invariant
                i <= n,
                out@.len() == i,
            decreases n - i,
        {
            out.push(0);
            i = i + 1;
        }
        let mut c: usize = 0;
        while c < m
            invariant
                d.wf(),
                ev == d.elements(),
                sv == d.cycle_starts(),
                n == ev.len(),
                m == sv.len(),
                c <= m,
                out@.len() == n,
                forall|c2: int, p2: int|
                    #[trigger] in_run(ev, sv, c2, p2) && c2 < c ==> out@[ev[p2] as int]
                        == ev[successor_position(ev, sv, c2, p2)],
            decreases m - c,
        {
            let s = d.starts.get(c);
            let e = if c + 1 < m {
                d.starts.get(c + 1)
            } else {
                n
            };
            proof {
                assert(run_end(ev, sv, c as int) == e);
                assert((sv[c as int] as int) < run_end(ev, sv, c as int));
            }
            let mut p = s;
            while p < e
                invariant
                    d.wf(),
                    ev == d.elements(),
                    sv == d.cycle_starts(),
                    n == ev.len(),
                    m == sv.len(),
                    c < m,
                    sv[c as int] == s,
                    run_end(ev, sv, c as int) == e,
                    s <= p <= e,
                    (e as int) <= n,
                    out@.len() == n,
                    forall|c2: int, p2: int|
                        #[trigger] in_run(ev, sv, c2, p2) && c2 < c ==> out@[ev[p2] as int]
                            == ev[successor_position(ev, sv, c2, p2)],
                    forall|p2: int|
                        s <= p2 < p ==> out@[ev[p2] as int] == ev[#[trigger] successor_position(
                            ev,
                            sv,
                            c as int,
                            p2,
                        )],
                decreases e - p,
            {
                let x = d.enumeration[p];
                let nxt = if p + 1 < e {
                    d.enumeration[p + 1]
                } else {
                    d.enumeration[s]
                };
                proof {
                    assert((ev[p as int] as int) < n);
                    assert(in_run(ev, sv, c as int, p as int));
                    assert(successor_position(ev, sv, c as int, p as int) == if p + 1 < e {
                        p + 1
                    } else {
                        s as int
                    });
                }
                let ghost outp = out@;
                out[x] = nxt;
                proof {
                    assert forall|c2: int, p2: int|
                        #[trigger] in_run(ev, sv, c2, p2) && c2 < c implies out@[ev[p2] as int]
                        == ev[successor_position(ev, sv, c2, p2)] by {
                        lemma_runs_disjoint_wrapper(ev, sv, c2, c as int, p2, p as int);
                        assert(ev[p2] != ev[p as int]);
                        assert(out@[ev[p2] as int] == outp[ev[p2] as int]);
                    }
                    assert forall|p2: int|
                        s <= p2 < p + 1 implies out@[ev[p2] as int]
                        == ev[#[trigger] successor_position(ev, sv, c as int, p2)] by {
                        if p2 < p {
                            assert(ev[p2] != ev[p as int]);
                            assert(outp[ev[p2] as int] == ev[successor_position(
                                ev,
                                sv,
                                c as int,
                                p2,
                            )]);
                        } else {
                            crate::model::lemma_successor_in_run(ev, sv, c as int, p as int);
                            assert(out@[ev[p as int] as int] == nxt);
                        }
                    }
                }
                p = p + 1;
            }
            c = c + 1;
        }
        proof {
            assert(links_ok(ev, sv, out@));
            assert(represents(ev, sv, out@));
            crate::model::lemma_represents_implies_permutation(ev, sv, out@);
        }
        Table::from_raw(out)
    }
}

/// Positions of two different runs are distinct positions.
proof fn lemma_runs_disjoint_wrapper(
    ev: Seq<usize>,
    sv: Seq<usize>,
    c1: int,
    c2: int,
    p1: int,
    p2: int,
)
    requires
        wf_starts(ev, sv),
        in_run(ev, sv, c1, p1),
        in_run(ev, sv, c2, p2),
        c1 != c2,
    ensures
        p1 != p2,
{
    if p1 == p2 {
        crate::model::lemma_runs_disjoint(ev, sv, c1, c2, p1);
    }
}

/// The mirror of recording an ascending-seed cycle: seeds are scanned
/// downward, so every element above the seed is already visited, the
/// seed is the largest element of its orbit and leads it, and leading
/// elements decrease across cycles.
#[verifier::rlimit(100)]
proof fn lemma_record_cycle_desc(
    t: Seq<usize>,
    evp: Seq<usize>,
    svp: Seq<usize>,
    evn: Seq<usize>,
    svn: Seq<usize>,
    vis0: Seq<bool>,
    seed: usize,
)
    requires
        wf_starts(evp, svp),
        links_ok(evp, svp, t),
        max_first(evp, svp),
        leading_decreasing(evp, svp),
        forall|c: int| 0 <= c < svp.len() ==> (evp[#[trigger] svp[c] as int] as int) > seed,
        svn == svp.push(evp.len() as usize),
        evp.len() <= usize::MAX,
        evn.len() > evp.len(),
        evn.subrange(0, evp.len() as int) == evp,
        evn[evp.len() as int] == seed,
        forall|p: int| evp.len() < p < evn.len() ==> #[trigger] chain_link(t, evn, p),
        t[evn[evn.len() - 1] as int] == seed,
        forall|p: int| evp.len() <= p < evn.len() ==> !vis0[#[trigger] evn[p] as int],
        forall|x: int| seed < x < t.len() ==> vis0[x],
        forall|p: int| 0 <= p < evn.len() ==> (#[trigger] evn[p] as int) < t.len(),
        forall|p: int, q: int|
            0 <= p < evn.len() && 0 <= q < evn.len() && p != q ==> evn[p] != evn[q],
        (seed as int) < t.len(),
    ensures
        wf_starts(evn, svn),
        links_ok(evn, svn, t),
        max_first(evn, svn),
        leading_decreasing(evn, svn),
        forall|c: int| 0 <= c < svn.len() ==> (evn[#[trigger] svn[c] as int] as int) >= seed,
{
    let b = evp.len() as int;
    let m = svp.len() as int;
    let ln = evn.len() as int;
    assert forall|p: int| 0 <= p < b implies evn[p] == evp[p] by {
        assert(evn.subrange(0, b)[p] == evn[p]);
    }
    assert forall|c: int|
        0 <= c < m implies (svp[c] as int) < b && run_end(evp, svp, c) <= b && run_end(
        evn,
        svn,
        c,
    ) == run_end(evp, svp, c) by {
        if c + 1 < m {
            assert(run_end(evp, svp, c) == svp[c + 1] as int);
            assert((svp[c + 1] as int) < b);
            assert(run_end(evn, svn, c) == svn[c + 1] as int);
        } else {
            assert(run_end(evp, svp, c) == b);
            assert(run_end(evn, svn, c) == svn[c + 1] as int);
            assert(svn[c + 1] == evp.len() as usize);
        }
    }
    if m == 0 {
        assert(b == 0);
    }
    assert(wf_starts(evn, svn));
    assert forall|c: int, p: int|
        #[trigger] in_run(evn, svn, c, p) implies t[evn[p] as int] == evn[successor_position(
        evn,
        svn,
        c,
        p,
    )] by {
        if c < m {
            assert(in_run(evp, svp, c, p));
            assert(t[evp[p] as int] == evp[successor_position(evp, svp, c, p)]);
            crate::model::lemma_successor_in_run(evp, svp, c, p);
            assert(successor_position(evn, svn, c, p) == successor_position(evp, svp, c, p));
        } else {
            assert(c == m);
            assert(svn[m] as int == b);
            assert(run_end(evn, svn, m) == ln);
            if p + 1 < ln {
                assert(chain_link(t, evn, p + 1));
                assert(successor_position(evn, svn, c, p) == p + 1);
            } else {
                assert(p == ln - 1);
                assert(successor_position(evn, svn, c, p) == b);
                assert(evn[b] == seed);
            }
        }
    }
    assert forall|c: int, p: int|
        #[trigger] in_run(evn, svn, c, p) && p > svn[c] implies evn[p] < evn[svn[c] as int] by {
        if c < m {
            assert(in_run(evp, svp, c, p));
            assert(evp[p] < evp[svp[c] as int]);
        } else {
            assert(c == m && svn[m] as int == b);
            assert(!vis0[evn[p] as int]);
            assert((evn[p] as int) <= seed);
            assert(evn[p] != evn[b]);
            assert(evn[b] == seed);
        }
    }
    assert forall|c1: int, c2: int|
        0 <= c1 < c2 < svn.len() implies evn[#[trigger] svn[c1] as int] > evn[#[trigger] svn[c2] as int] by {
        if c2 < m {
            assert(evp[svp[c1] as int] > evp[svp[c2] as int]);
        } else {
            assert(c2 == m);
            assert((evp[svp[c1] as int] as int) > seed);
            assert(evn[svn[c2] as int] == seed);
        }
    }
}

impl CycleDecomposition {
    /// Orbit traversal with the seeds scanned from the highest element
    /// downward: each cycle is led by its largest element, and cycles
    /// appear in decreasing order of their leading elements.
    #[verifier::rlimit(100)]
    fn decompose_descending(table: &Table) -> (r: CycleDecomposition)
        requires
            table.wf(),
        ensures
            r.wf(),
            r.size() == table@.len(),
            represents(r.elements(), r.cycle_starts(), table@),
            is_normalized(r.elements(), r.cycle_starts()),
    {
        let n = table.len();
        let mut enumeration: Vec<usize> = Vec::new();
        let mut starts = StartsBuf::new();
        let mut visited: Vec<bool> = Vec::new();
        let mut i: usize = 0;
        while i < n
            invariant
                i <= n,
                visited@.len() == i,
                forall|x: int| 0 <= x < i ==> !visited@[x],
            decreases n - i,
        {
            visited.push(false);
            i = i + 1;
        }
        proof {
            lemma_count_true_none(visited@);
        }
        let mut k: usize = 0;
        while k < n
            invariant
                table.wf(),
                n == table@.len(),
                k <= n,
                traversal_state(table@, enumeration@, visited@),
                enumeration@.len() <= n,
                forall|x: int| n - k <= x < n ==> visited@[x],
                wf_starts(enumeration@, starts_seq(starts)),
                links_ok(enumeration@, starts_seq(starts), table@),
                max_first(enumeration@, starts_seq(starts)),
                leading_decreasing(enumeration@, starts_seq(starts)),
                forall|c: int|
                    0 <= c < starts_seq(starts).len() ==> (enumeration@[#[trigger] starts_seq(
                        starts,
                    )[c] as int] as int) >= n - k,
            decreases n - k,
        {
            let seed = n - 1 - k;
            if !visited[seed] {
                let ghost evp = enumeration@;
                let ghost svp = starts_seq(starts);
                let ghost vis0 = visited@;
                let here = enumeration.len();
                starts.push(here);
                walk_orbit(table, &mut visited, &mut enumeration, seed);
                proof {
                    lemma_record_cycle_desc(
                        table@,
                        evp,
                        svp,
                        enumeration@,
                        starts_seq(starts),
                        vis0,
                        seed,
                    );
                    assert(listed(enumeration@, seed as int));
                    assert(visited@[seed as int]);
                    assert forall|x: int| n - (k + 1) <= x < n implies visited@[x] by {
                        if x > seed {
                            assert(vis0[x]);
                        }
                    }
                }
            }
            k = k + 1;
        }
        proof {
            lemma_count_true_full(visited@);
            assert(enumeration@.len() == n);
            assert forall|v: int| 0 <= v < n implies #[trigger] has_source(enumeration@, v) by {
                assert(visited@[v]);
                assert(listed(enumeration@, v));
                let p = choose|p: int|
                    0 <= p < enumeration@.len() && (#[trigger] enumeration@[p] as int) == v;
                assert(enumeration@[p] == v);
            }
        }
        CycleDecomposition { enumeration, starts }
    }

    /// Rewrites the decomposition into its canonical form: every cycle
    /// is rotated to start with its largest element, and the cycles are
    /// reordered by decreasing leading element. Afterwards, two
    /// decompositions denote the same permutation exactly when their
    /// representations are equal.
    pub fn normalize(&mut self)
        requires
            old(self).wf(),
        ensures
            final(self).wf(),
            final(self).size() == old(self).size(),
            is_normalized(final(self).elements(), final(self).cycle_starts()),
            forall|t: Seq<usize>|
                #[trigger] represents(old(self).elements(), old(self).cycle_starts(), t)
                    ==> represents(final(self).elements(), final(self).cycle_starts(), t),
    {
        let table = Table::from_decomposition(self);
        let canonical = Self::decompose_descending(&table);
        proof {
            assert forall|t: Seq<usize>|
                #[trigger] represents(old(self).elements(), old(self).cycle_starts(), t) implies represents(
                canonical.elements(),
                canonical.cycle_starts(),
                t,
            ) by {
                lemma_represented_table_unique(
                    old(self).elements(),
                    old(self).cycle_starts(),
                    t,
                    table@,
                );
            }
        }
        *self = canonical;
    }

    /// How many cycles the decomposition lists.
    pub fn cycle_count(&self) -> (m: usize)
        ensures
            m == self.cycle_starts().len(),
    {
        self.starts.len()
    }

    /// A restartable iteration over the cycles, in listed order.
    pub fn cycles(&self) -> (r: CycleIter)
        ensures
            r.owner() == *self,
            r.position() == 0,
    {
        CycleIter { decomposition: self, cycle: 0 }
    }

    /// Counts the cycles by length: slot `k` of the result holds the
    /// number of cycles of length `k + 1`. The weighted counts always
    /// add back up to the size of the underlying set.
    pub fn cycle_type(&self) -> (r: CycleType)
        requires
            self.wf(),
        ensures
            r@.len() == self.size(),
            forall|k: int|
                0 <= k < self.size() ==> (#[trigger] r@[k] as int) == count_runs_with_length(
                    self.elements(),
                    self.cycle_starts(),
                    k + 1,
                    self.cycle_starts().len() as int,
                ),
            weighted_count_sum(r@, self.size() as int) == self.size(),
    {
        let ghost ev = self.elements();
        let ghost sv = self.cycle_starts();
        let n = self.enumeration.len();
        let m = self.starts.len();
        let mut counts: Vec<usize> = Vec::new();
        let mut i: usize = 0;
        while i < n
            invariant
                i <= n,
                counts@.len() == i,
                forall|k: int| 0 <= k < i ==> counts@[k] == 0,
            decreases n - i,
        {
            counts.push(0);
            i = i + 1;
        }
        proof {
            lemma_weighted_sum_zero(counts@, n as int);
            if m > 0 {
                crate::model::lemma_starts_at_least_index(ev, sv, m - 1);
            }
        }
        let mut c: usize = 0;
        while c < m
            invariant
                self.wf(),
                ev == self.elements(),
                sv == self.cycle_starts(),
                n == ev.len(),
                m == sv.len(),
                m <= n,
                c <= m,
                counts@.len() == n,
                forall|k: int|
                    0 <= k < n ==> (#[trigger] counts@[k] as int) == count_runs_with_length(
                        ev,
                        sv,
                        k + 1,
                        c as int,
                    ),
                forall|k: int| 0 <= k < n ==> counts@[k] <= c,
                weighted_count_sum(counts@, n as int) == if c < m {
                    sv[c as int] as int
                } else {
                    n as int
                },
            decreases m - c,
        {
            let s = self.starts.get(c);
            let e = if c + 1 < m {
                self.starts.get(c + 1)
            } else {
                n
            };
            proof {
                assert(run_end(ev, sv, c as int) == e);
                assert((sv[c as int] as int) < run_end(ev, sv, c as int));
            }
            let ell = e - s;
            let ghost countsp = counts@;
            let cur = counts[ell - 1];
            counts[ell - 1] = cur + 1;
            proof {
                lemma_weighted_sum_update(countsp, ell - 1, n as int);
                assert(run_length(ev, sv, c as int) == ell);
                assert forall|k: int|
                    0 <= k < n implies (#[trigger] counts@[k] as int) == count_runs_with_length(
                    ev,
                    sv,
                    k + 1,
                    c + 1,
                ) by {
                    assert(count_runs_with_length(ev, sv, k + 1, c + 1)
                        == count_runs_with_length(ev, sv, k + 1, c as int) + if run_length(
                        ev,
                        sv,
                        c as int,
                    ) == k + 1 {
                        1int
                    } else {
                        0int
                    });
                }
            }
            c = c + 1;
        }
        CycleType { cycle_type: counts }
    }
}

/// A read-only view into one cycle of a [`CycleDecomposition`]: a
/// contiguous sub-range of its enumeration, in successor order.
pub struct Cycle<'a> {
    cycle_slice: &'a [usize],
}

impl<'a> View for Cycle<'a> {
    type V = Seq<usize>;

    closed spec fn view(&self) -> Seq<usize> {
        self.cycle_slice@
    }
}

impl<'a> Cycle<'a> {
    /// How many elements the cycle has; never zero for a cycle obtained
    /// from a well-formed decomposition.
    pub fn len(&self) -> (r: usize)
        ensures
            r == self@.len(),
    {
        self.cycle_slice.len()
    }

    /// The element at offset `i` of the cycle, in successor order.
    pub fn get(&self, i: usize) -> (r: usize)
        requires
            i < self@.len(),
        ensures
            r == self@[i as int],
    {
        *vstd::slice::slice_index_get(self.cycle_slice, i)
    }

    /// Copies the cycle into owned storage.
    pub fn to_owned_cycle(&self) -> (r: OwnedCycle)
        ensures
            r@ == self@,
    {
        OwnedCycle { cycle: vstd::slice::slice_to_vec(self.cycle_slice) }
    }
}

/// An owned version of a [`Cycle`].
pub struct OwnedCycle {
    cycle: Vec<usize>,
}

impl View for OwnedCycle {
    type V = Seq<usize>;

    closed spec fn view(&self) -> Seq<usize> {
        self.cycle@
    }
}

impl OwnedCycle {
    /// How many elements the cycle has.
    pub fn len(&self) -> (r: usize)
        ensures
            r == self@.len(),
    {
        self.cycle.len()
    }

    /// A borrowed view of the owned cycle.
    pub fn as_cycle(&self) -> (r: Cycle)
        ensures
            r@ == self@,
    {
        Cycle { cycle_slice: self.cycle.as_slice() }
    }
}

/// A finite, restartable iterator over the cycles of a decomposition.
/// Re-requesting iteration always yields the same sequence of views;
/// iteration never mutates the decomposition.
pub struct CycleIter<'a> {
    decomposition: &'a CycleDecomposition,
    cycle: usize,
}

impl<'a> CycleIter<'a> {
    /// The decomposition being iterated.
    pub closed spec fn owner(&self) -> CycleDecomposition {
        *self.decomposition
    }

    /// How many cycles were already handed out.
    pub closed spec fn position(&self) -> nat {
        self.cycle as nat
    }

    /// The next cycle view, in listed order, or nothing once every
    /// cycle was handed out.
    pub fn next(&mut self) -> (r: Option<Cycle<'a>>)
        requires
            old(self).owner().wf(),
        ensures
            final(self).owner() == old(self).owner(),
            match r {
                Some(cy) => {
                    &&& (old(self).position() as int) < old(self).owner().cycle_starts().len()
                    &&& final(self).position() == old(self).position() + 1
                    &&& cy@ == old(self).owner().elements().subrange(
                        old(self).owner().cycle_starts()[old(self).position() as int] as int,
                        run_end(
                            old(self).owner().elements(),
                            old(self).owner().cycle_starts(),
                            old(self).position() as int,
                        ),
                    )
                },
                None => {
                    &&& old(self).position() >= old(self).owner().cycle_starts().len()
                    &&& final(self).position() == old(self).position()
                },
            },
    {
        let ghost ev = self.decomposition.elements();
        let ghost sv = self.decomposition.cycle_starts();
        let m = self.decomposition.starts.len();
        let n = self.decomposition.enumeration.len();
        if self.cycle >= m {
            return None;
        }
        let c = self.cycle;
        self.cycle = c + 1;
        let s = self.decomposition.starts.get(c);
        let e = if c + 1 < m {
            self.decomposition.starts.get(c + 1)
        } else {
            n
        };
        proof {
            assert(run_end(ev, sv, c as int) == e);
            assert((sv[c as int] as int) < run_end(ev, sv, c as int));
        }
        let piece = vstd::slice::slice_subrange(
            self.decomposition.enumeration.as_slice(),
            s,
            e,
        );
        Some(Cycle { cycle_slice: piece })
    }
}

/// The cycle type of a permutation: slot `k` counts the cycles of
/// length `k + 1`, a representation of the conjugacy class of the
/// permutation in the symmetric group.
///
/// If the table for a permutation looks like:
///
/// ```text
/// 0 1 2 3
/// | | | |
/// v v v v
/// 1 3 2 0
/// ```
///
/// then the cycle decomposition looks like:
///
/// ```text
/// (0 1 3) (2)
/// ```
///
/// and the cycle type is:
///
/// ```text
/// [ 1, 0, 1, 0 ]
/// ```
///
/// because there is one cycle of length one, zero cycles of length
/// two, one cycle of length three, and zero cycles of length four.
#[derive(Debug)]
pub struct CycleType {
    cycle_type: Vec<usize>,
}

impl View for CycleType {
    type V = Seq<usize>;

    closed spec fn view(&self) -> Seq<usize> {
        self.cycle_type@
    }
}

impl CycleType {
    /// The counts by length, slot `k` for cycles of length `k + 1`.
    pub fn as_slice(&self) -> (r: &[usize])
        ensures
            r@ == self@,
    {
        self.cycle_type.as_slice()
    }
}

impl PartialEq for CycleDecomposition {
    /// Representation equality: the same enumeration cut at the same
    /// offsets. Two decompositions of one permutation may compare
    /// unequal until both are normalized.
    fn eq(&self, other: &CycleDecomposition) -> (r: bool) {
        let n = self.enumeration.len();
        if n != other.enumeration.len() {
            return false;
        }
        let m = self.starts.len();
        if m != other.starts.len() {
            return false;
        }
        let mut i: usize = 0;
        while i < n
            invariant
                i <= n,
                n == self.elements().len(),
                n == other.elements().len(),
                forall|k: int| 0 <= k < i ==> self.elements()[k] == other.elements()[k],
            decreases n - i,
        {
            if self.enumeration[i] != other.enumeration[i] {
                return false;
            }
            i = i + 1;
        }
        i = 0;
        while i < m
            invariant
                i <= m,
                m == self.cycle_starts().len(),
                m == other.cycle_starts().len(),
                forall|k: int| 0 <= k < i ==> self.cycle_starts()[k] == other.cycle_starts()[k],
            decreases m - i,
        {
            if self.starts.get(i) != other.starts.get(i) {
                return false;
            }
            i = i + 1;
        }
        proof {
            assert(self.elements() =~= other.elements());
            assert(self.cycle_starts() =~= other.cycle_starts());
        }
        true
    }
}

impl Eq for CycleDecomposition {

}

impl vstd::std_specs::cmp::PartialEqSpecImpl for CycleDecomposition {
    open spec fn obeys_eq_spec() -> bool {
        true
    }

    open spec fn eq_spec(&self, other: &CycleDecomposition) -> bool {
        self.elements() == other.elements() && self.cycle_starts() == other.cycle_starts()
    }
}

} // verus!

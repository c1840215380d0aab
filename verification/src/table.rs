//! Permutations represented as direct mapping tables.

use vstd::prelude::*;

use crate::model::application;
use crate::model::composition;
use crate::model::count_true;
use crate::model::has_source;
use crate::model::identity_permutation;
use crate::model::is_inverse_of;
use crate::model::is_permutation;
use crate::model::lemma_count_true_lt;
use crate::model::lemma_count_true_none;
use crate::model::lemma_count_true_update;
use crate::model::lemma_identity_is_permutation;
use crate::model::rotation_permutation;

verus! {

/// A trait to overload the notion of a group acting on a type, akin
/// to a group acting on a set in group theory.
pub trait Action<Elem> {
    /// When the action is defined on `element`.
    spec fn can_act(&self, element: &Elem) -> bool;

    /// The relation between `element` and its image under the action.
    spec fn acts_to(&self, element: &Elem, image: &Elem) -> bool;

    fn act(&self, element: &Elem) -> (image: Elem)
        requires
            self.can_act(element),
        ensures
            self.acts_to(element, &image),
    ;
}

/// Represents a permutation of `{0, ..., n-1}` as a table: the entry at
/// index `i` is the image of `i`. The table is a bijection whenever
/// `wf()` holds; every constructor of this crate establishes it.
///
/// ```text
/// 0 1 2 3
/// | | | |
/// v v v v
/// 1 3 2 0
/// ```
#[derive(Debug, Clone)]
pub struct Table {
    table: Vec<usize>,
}

impl View for Table {
    type V = Seq<usize>;

    closed spec fn view(&self) -> Seq<usize> {
        self.table@
    }
}

impl Table {
    /// The table is a genuine bijection on `{0, ..., n-1}`.
    pub open spec fn wf(&self) -> bool {
        is_permutation(self@)
    }

    /// The size of the underlying set.
    pub fn len(&self) -> (n: usize)
        ensures
            n == self@.len(),
    {
        self.table.len()
    }

    /// The image of `i` under the permutation.
    pub fn get(&self, i: usize) -> (v: usize)
        requires
            i < self@.len(),
        ensures
            v == self@[i as int],
    {
        self.table[i]
    }

    /// Wraps a raw table without validating it; internal constructors
    /// prove bijectivity on their own.
    pub(crate) fn from_raw(table: Vec<usize>) -> (r: Table)
        ensures
            r@ == table@,
    {
        Table { table }
    }

    /// Overwrites a single slot; used by internal builders.
    pub(crate) fn set_entry(&mut self, i: usize, v: usize)
        requires
            i < old(self)@.len(),
        ensures
            final(self)@ == old(self)@.update(i as int, v),
    {
        self.table[i] = v;
    }

    /// The identity permutation on `{0, ..., n-1}`.
    pub fn identity(n: usize) -> (r: Table)
        ensures
            r@ == identity_permutation(n as nat),
            r@.len() == n,
            forall|i: int| 0 <= i < n ==> r@[i] == i,
            r.wf(),
    {
        let mut table: Vec<usize> = Vec::new();
        let mut i: usize = 0;
        while i < n
            invariant
                i <= n,
                table@.len() == i,
                forall|k: int| 0 <= k < i ==> table@[k] == k,
            decreases n - i,
        {
            table.push(i);
            i = i + 1;
        }
        proof {
            assert(table@ =~= identity_permutation(n as nat));
            lemma_identity_is_permutation(n as nat);
        }
        Table { table }
    }

    /// The canonical `n`-cycle: `i` maps to `i + 1`, and `n - 1` wraps to `0`.
    pub fn cycle(n: usize) -> (r: Table)
        ensures
            r@ == rotation_permutation(n as nat),
            r@.len() == n,
            r.wf(),
    {
        let mut table: Vec<usize> = Vec::new();
        let mut i: usize = 0;
        while i < n
            invariant
                i <= n,
                table@.len() == i,
                forall|k: int| 0 <= k < i ==> table@[k] == rotation_permutation(n as nat)[k],
            decreases n - i,
        {
            if i + 1 == n {
                table.push(0);
            } else {
                table.push(i + 1);
            }
            i = i + 1;
        }
        proof {
            let s = table@;
            assert(s =~= rotation_permutation(n as nat));
            assert forall|v: int| 0 <= v < s.len() implies #[trigger] has_source(s, v) by {
                if v == 0 {
                    assert(s[n - 1] == v);
                } else {
                    assert(s[v - 1] == v);
                }
            }
        }
        Table { table }
    }

    /// The transposition that exchanges `i` and `j` and fixes the rest.
    /// Out-of-range indices are a domain error the caller must rule out.
    pub fn swap(n: usize, i: usize, j: usize) -> (r: Table)
        requires
            i < n,
            j < n,
        ensures
            r@.len() == n,
            r@[i as int] == j,
            r@[j as int] == i,
            forall|k: int| 0 <= k < n && k != i && k != j ==> r@[k] == k,
            r.wf(),
    {
        let mut t = Table::identity(n);
        t.set_entry(i, j);
        t.set_entry(j, i);
        proof {
            let s = t@;
            assert forall|v: int| 0 <= v < s.len() implies #[trigger] has_source(s, v) by {
                if v == i {
                    assert(s[j as int] == v);
                } else if v == j {
                    assert(s[i as int] == v);
                } else {
                    assert(s[v] == v);
                }
            }
        }
        t
    }

    /// The inverse permutation: for every `i`, the slot at `self@[i]`
    /// of the result holds `i`.
    pub fn invert(&self) -> (r: Table)
        requires
            self.wf(),
        ensures
            r@.len() == self@.len(),
            is_inverse_of(r@, self@),
            r.wf(),
    {
        let n = self.table.len();
        let mut inv = Table::identity(n);
        let mut i: usize = 0;
        while i < n
            invariant
                i <= n,
                n == self@.len(),
                self.wf(),
                inv@.len() == n,
                forall|k: int| 0 <= k < n ==> #[trigger] inv@[k] < n,
                forall|k: int| 0 <= k < i ==> inv@[#[trigger] self@[k] as int] == k,
            decreases n - i,
        {
            let v = self.table[i];
            inv.set_entry(v, i);
            i = i + 1;
        }
        proof {
            let s = self@;
            let r = inv@;
            assert forall|x1: int, x2: int|
                0 <= x1 < n && 0 <= x2 < n && x1 != x2 implies r[x1] != r[x2] by {
                let k1 = choose|k: int| 0 <= k < n && #[trigger] s[k] == x1;
                let k2 = choose|k: int| 0 <= k < n && #[trigger] s[k] == x2;
                assert(has_source(s, x1) && has_source(s, x2));
                assert(r[x1] == k1 && r[x2] == k2);
            }
            assert forall|v: int| 0 <= v < n implies #[trigger] has_source(r, v) by {
                assert(r[s[v] as int] == v);
            }
        }
        inv
    }

    /// Composition read right-to-left: the result applies `other` first,
    /// then `self`, sending `i` to `self@[other@[i]]`. Composition is not
    /// commutative; callers rely on exactly this order.
    pub fn compose(&self, other: &Table) -> (r: Table)
        requires
            self.wf(),
            other.wf(),
            self@.len() == other@.len(),
        ensures
            r@ == composition(self@, other@),
            r@.len() == self@.len(),
            r.wf(),
    {
        let n = self.table.len();
        let mut out: Vec<usize> = Vec::new();
        let mut i: usize = 0;
        while i < n
            invariant
                i <= n,
                n == self@.len(),
                n == other@.len(),
                self.wf(),
                other.wf(),
                out@.len() == i,
                forall|k: int| 0 <= k < i ==> out@[k] == self@[#[trigger] other@[k] as int],
            decreases n - i,
        {
            let w = self.table[other.table[i]];
            out.push(w);
            i = i + 1;
        }
        proof {
            let a = self@;
            let b = other@;
            let c = out@;
            assert(c =~= composition(a, b));
            assert forall|k1: int, k2: int|
                0 <= k1 < n && 0 <= k2 < n && k1 != k2 implies c[k1] != c[k2] by {
                assert(b[k1] != b[k2]);
            }
            assert forall|v: int| 0 <= v < n implies #[trigger] has_source(c, v) by {
                assert(has_source(a, v));
                let w = choose|k: int| 0 <= k < n && #[trigger] a[k] == v;
                assert(has_source(b, w));
                let k = choose|k: int| 0 <= k < n && #[trigger] b[k] == w;
                assert(c[k] == v);
            }
        }
        Table::from_raw(out)
    }

    /// The image of `x` under the permutation, with `x` first reduced
    /// modulo the table's size.
    pub fn apply(&self, x: usize) -> (v: usize)
        requires
            self@.len() > 0,
        ensures
            v == application(self@, x),
    {
        let n = self.table.len();
        self.table[x % n]
    }

    /// Externalizes the table as its ordered sequence of images.
    pub fn serialize(&self) -> (r: Vec<usize>)
        ensures
            r@ == self@,
    {
        let n = self.table.len();
        let mut out: Vec<usize> = Vec::new();
        let mut i: usize = 0;
        while i < n
            invariant
                i <= n,
                n == self@.len(),
                out@.len() == i,
                forall|k: int| 0 <= k < i ==> out@[k] == self@[k],
            decreases n - i,
        {
            out.push(self.table[i]);
            i = i + 1;
        }
        proof {
            assert(out@ =~= self@);
        }
        out
    }

    /// Reconstructs a table of size `n` from a raw sequence of images,
    /// rejecting a sequence of the wrong length and one that is not a
    /// bijection on `{0, ..., n-1}`.
    pub fn deserialize(n: usize, values: Vec<usize>) -> (r: Result<Table, PermError>)
        ensures
            match r {
                Ok(t) => values@.len() == n && is_permutation(values@) && t@ == values@,
                Err(e) => match e {
                    PermError::LengthMismatch => values@.len() != n,
                    PermError::NotBijective => values@.len() == n && !is_permutation(values@),
                },
            },
    {
        if values.len() != n {
            return Err(PermError::LengthMismatch);
        }
        let mut seen: Vec<bool> = Vec::new();
        let mut i: usize = 0;
        while i < n
            invariant
                i <= n,
                seen@.len() == i,
                forall|x: int| 0 <= x < i ==> !seen@[x],
            decreases n - i,
        {
            seen.push(false);
            i = i + 1;
        }
        proof {
            lemma_count_true_none(seen@);
        }
        i = 0;
        while i < n
            invariant
                i <= n,
                n == values@.len(),
                seen@.len() == n,
                forall|k: int| 0 <= k < i ==> #[trigger] values@[k] < n,
                forall|k1: int, k2: int|
                    0 <= k1 < i && 0 <= k2 < i && k1 != k2 ==> values@[k1] != values@[k2],
                forall|x: int|
                    0 <= x < n
                        ==> (#[trigger] seen@[x] <==> exists|k: int|
                        0 <= k < i && #[trigger] values@[k] == x),
                count_true(seen@) == i,
            decreases n - i,
        {
            let v = values[i];
            if v >= n {
                proof {
                    assert(values@[i as int] >= values@.len());
                }
                return Err(PermError::NotBijective);
            }
            if seen[v] {
                proof {
                    let k = choose|k: int| 0 <= k < i && #[trigger] values@[k] == v as int;
                    assert(values@[k] == values@[i as int]);
                }
                return Err(PermError::NotBijective);
            }
            let ghost s0 = seen@;
            seen[v] = true;
            proof {
                lemma_count_true_update(s0, v as int);
                assert forall|x: int|
                    0 <= x < n implies (#[trigger] seen@[x] <==> exists|k: int|
                    0 <= k < i + 1 && #[trigger] values@[k] == x) by {
                    if seen@[x] {
                        if x == v as int {
                            assert(values@[i as int] == x);
                        }
                    }
                }
            }
            i = i + 1;
        }
        proof {
            assert forall|x: int| 0 <= x < n implies #[trigger] has_source(values@, x) by {
                if !seen@[x] {
                    lemma_count_true_lt(seen@, x);
                }
                let k = choose|k: int| 0 <= k < n && #[trigger] values@[k] == x;
                assert(values@[k] == x);
            }
        }
        Ok(Table::from_raw(values))
    }
}

/// Why reconstructing a table from raw input was rejected.
#[derive(Debug, Clone, Copy, PartialEq, Eq, Structural)]
pub enum PermError {
    /// The raw sequence's length differs from the expected size.
    LengthMismatch,
    /// The raw sequence is not a bijection on its index range.
    NotBijective,
}

impl Action<usize> for Table {
    /// A table of size zero acts on nothing.
    open spec fn can_act(&self, element: &usize) -> bool {
        self@.len() > 0
    }

    open spec fn acts_to(&self, element: &usize, image: &usize) -> bool {
        *image == application(self@, *element)
    }

    fn act(&self, element: &usize) -> (image: usize) {
        self.apply(*element)
    }
}

/// Acting on a single value lifts element-wise to acting on a sequence
/// of values, preserving order.
impl Action<Vec<usize>> for Table {
    open spec fn can_act(&self, element: &Vec<usize>) -> bool {
        self@.len() > 0
    }

    open spec fn acts_to(&self, element: &Vec<usize>, image: &Vec<usize>) -> bool {
        &&& image@.len() == element@.len()
        &&& forall|k: int|
            0 <= k < element@.len() ==> #[trigger] image@[k] == application(self@, element@[k])
    }

    fn act(&self, element: &Vec<usize>) -> (image: Vec<usize>) {
        let m = element.len();
        let mut out: Vec<usize> = Vec::new();
        let mut i: usize = 0;
        while i < m
            invariant
                i <= m,
                m == element@.len(),
                self@.len() > 0,
                out@.len() == i,
                forall|k: int| 0 <= k < i ==> #[trigger] out@[k] == application(self@, element@[k]),
            decreases m - i,
        {
            out.push(self.apply(element[i]));
            i = i + 1;
        }
        out
    }
}

impl PartialEq for Table {
    /// Two tables are equal exactly when they map every index alike.
    fn eq(&self, other: &Table) -> (r: bool) {
        let n = self.table.len();
        if n != other.table.len() {
            return false;
        }
        let mut i: usize = 0;
        while i < n
            invariant
                i <= n,
                n == self@.len(),
                n == other@.len(),
                forall|k: int| 0 <= k < i ==> self@[k] == other@[k],
            decreases n - i,
        {
            if self.table[i] != other.table[i] {
                return false;
            }
            i = i + 1;
        }
        proof {
            assert(self@ =~= other@);
        }
        true
    }
}

impl Eq for Table {

}

impl vstd::std_specs::cmp::PartialEqSpecImpl for Table {
    open spec fn obeys_eq_spec() -> bool {
        true
    }

    open spec fn eq_spec(&self, other: &Table) -> bool {
        self@ == other@
    }
}

} // verus!

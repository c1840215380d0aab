//! Random sampling of permutations: a uniform shuffle of the identity
//! table. Whatever order the randomness source produces, the result is
//! proved to be a genuine permutation.

use vstd::prelude::*;

use rand::seq::SliceRandom;

use crate::model::has_source;
use crate::table::Table;

verus! {

/// Relies on rand's SliceRandom::shuffle, which reorders the elements
/// of the slice in place (a uniform permutation of them), drawing its
/// randomness from rand::thread_rng.
#[verifier::external_body]
fn shuffle_in_place(values: &mut Vec<usize>)
    ensures
        final(values)@.to_multiset() == old(values)@.to_multiset(),
{
    let mut rng = rand::thread_rng();
    values.as_mut_slice().shuffle(&mut rng);
}

impl Table {
    /// A permutation of `{0, ..., n-1}` drawn at random, by shuffling
    /// the identity table. The result is bijective for every outcome of
    /// the shuffle; which bijection comes out is up to the randomness.
    pub fn random(n: usize) -> (r: Table)
        ensures
            r@.len() == n,
            r.wf(),
    {
        let identity_table = Table::identity(n);
        let mut values = identity_table.serialize();
        let ghost idv = values@;
        shuffle_in_place(&mut values);
        proof {
            broadcast use vstd::seq_lib::group_to_multiset_ensures;

            let s = values@;
            assert(s.to_multiset().len() == s.len());
            assert(idv.to_multiset().len() == idv.len());
            assert(s.len() == n);
            assert(idv.no_duplicates());
            idv.lemma_multiset_has_no_duplicates();
            s.lemma_multiset_has_no_duplicates_conv();
            assert(s.no_duplicates());
            assert forall|i: int| 0 <= i < s.len() implies #[trigger] s[i] < s.len() by {
                assert(s.contains(s[i]));
                assert(s.to_multiset().count(s[i]) > 0);
                assert(idv.to_multiset().count(s[i]) > 0);
                assert(idv.contains(s[i]));
                let q = choose|q: int| 0 <= q < idv.len() && idv[q] == s[i];
                assert(idv[q] == q);
            }
            assert forall|v: int| 0 <= v < s.len() implies #[trigger] has_source(s, v) by {
                assert(idv[v] == v as usize);
                assert(idv.contains(v as usize));
                assert(idv.to_multiset().count(v as usize) > 0);
                assert(s.to_multiset().count(v as usize) > 0);
                assert(s.contains(v as usize));
                let p = choose|p: int| 0 <= p < s.len() && s[p] == v as usize;
                assert(s[p] == v);
            }
        }
        Table::from_raw(values)
    }
}

} // verus!

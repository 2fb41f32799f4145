use vstd::prelude::*;
use vstd::set_lib::{lemma_int_range, lemma_len_subset, lemma_map_size, set_int_range};

verus! {

/// A finite set of keys below `n` holds at most `n` keys.
pub proof fn lemma_visited_bound(v: Set<u64>, n: u64)
    requires
        v.finite(),
        forall|k: u64| v.contains(k) ==> k < n,
    ensures
        v.len() <= n,
{
    let f = |k: u64| k as int;
    let img = v.map(f);
    assert(vstd::relations::injective_on(f, v));
    lemma_map_size(v, img, f);
    lemma_int_range(0, n as int);
    assert(img.subset_of(set_int_range(0, n as int)));
    lemma_len_subset(img, set_int_range(0, n as int));
}

} // verus!

//! The global guarantees of the engine, each proved from the component
//! contracts: completeness of the final aggregates, exact coverage of
//! the buffer by the regions, independence of the merge order, and the
//! neutrality of empty regions.
use vstd::prelude::*;
use crate::aggregate::AggModel;
use crate::aggregate::lemma_agg_of_props;
use crate::aggregate::sum_of;
use crate::pipeline::covered_upto;
use crate::pipeline::fold_merge;
use crate::pipeline::lemma_regions_records;
use crate::pipeline::rec_concat;
use crate::pipeline::region_bytes;
use crate::pipeline::regions_wf;
use crate::records::records_of;
use crate::result_map::lemma_merge_empty;
use crate::result_map::lemma_values_len;
use crate::result_map::merge_model;
use crate::result_map::region_model;
use crate::result_map::values_of_recs;
use crate::splitter::Region;

verus! {

/// The values of all well-formed records with key `k` in a buffer, in
/// order of appearance.
pub open spec fn key_values(s: Seq<u8>, k: Seq<u8>) -> Seq<int> {
    values_of_recs(records_of(s), k)
}

/// Completeness: the final map knows exactly the keys with at least one
/// well-formed record, and for each such key its count is the number of
/// those records, its sum their exact sum, and its minimum and maximum
/// are record values bounding every record value of the key.
pub proof fn lemma_completeness(s: Seq<u8>, k: Seq<u8>)
    ensures
        region_model(s).contains_key(k) <==> key_values(s, k).len() > 0,
        region_model(s).contains_key(k) ==> region_model(s)[k].count == key_values(s, k).len(),
        region_model(s).contains_key(k) ==> region_model(s)[k].sum == sum_of(key_values(s, k)),
        region_model(s).contains_key(k) ==> exists|j: int|
            0 <= j < key_values(s, k).len() && key_values(s, k)[j] == region_model(s)[k].min,
        region_model(s).contains_key(k) ==> exists|j: int|
            0 <= j < key_values(s, k).len() && key_values(s, k)[j] == region_model(s)[k].max,
        region_model(s).contains_key(k) ==> forall|j: int|
            0 <= j < key_values(s, k).len() ==> region_model(s)[k].min <= #[trigger] key_values(
                s,
                k,
            )[j] <= region_model(s)[k].max,
{
    if region_model(s).contains_key(k) {
        lemma_agg_of_props(key_values(s, k));
    }
}

/// The bytes selected by a sequence of regions, in order.
pub open spec fn bytes_concat(s: Seq<u8>, regions: Seq<Region>) -> Seq<u8>
    decreases regions.len(),
{
    if regions.len() == 0 {
        Seq::empty()
    } else {
        bytes_concat(s, regions.drop_last()) + region_bytes(s, regions.last())
    }
}

proof fn lemma_bytes_concat_prefix(s: Seq<u8>, regions: Seq<Region>, t: int)
    requires
        regions_wf(s, regions),
        0 <= t <= regions.len(),
    ensures
        bytes_concat(s, regions.take(t)) == s.subrange(0, covered_upto(regions, t)),
    decreases t,
{
    if t == 0 {
        assert(bytes_concat(s, regions.take(0)) =~= s.subrange(0, 0));
    } else {
        lemma_bytes_concat_prefix(s, regions, t - 1);
        let st = regions[t - 1].start as int;
        let en = regions[t - 1].end as int;
        assert(covered_upto(regions, t - 1) == st);
        assert(regions.take(t).drop_last() =~= regions.take(t - 1));
        assert(regions.take(t).last() == regions[t - 1]);
        assert(s.subrange(0, st) + s.subrange(st, en) =~= s.subrange(0, en));
    }
}

/// No record split across regions: the regions of a well-formed split
/// cover the buffer exactly once, byte for byte, and the records of the
/// buffer are the records of the regions, concatenated in order — every
/// line lies entirely within one region.
pub proof fn lemma_regions_cover(s: Seq<u8>, regions: Seq<Region>)
    requires
        regions_wf(s, regions),
    ensures
        bytes_concat(s, regions) == s,
        records_of(s) == rec_concat(s, regions),
{
    let n = regions.len() as int;
    lemma_bytes_concat_prefix(s, regions, n);
    lemma_regions_records(s, regions, n);
    assert(regions.take(n) =~= regions);
    assert(s.subrange(0, covered_upto(regions, n)) =~= s);
}

/// One map of a fold can be pulled out: folding is the same as folding
/// all the others and merging that map last.
pub proof fn lemma_fold_merge_pull(ms: Seq<Map<Seq<u8>, AggModel>>, i: int)
    requires
        0 <= i < ms.len(),
    ensures
        fold_merge(ms) == merge_model(fold_merge(ms.remove(i)), ms[i]),
    decreases ms.len(),
{
    if i == ms.len() - 1 {
        assert(ms.remove(i) =~= ms.drop_last());
    } else {
        let dl = ms.drop_last();
        lemma_fold_merge_pull(dl, i);
        assert(merge_model(
            merge_model(fold_merge(dl.remove(i)), dl[i]),
            ms.last(),
        ) =~= merge_model(merge_model(fold_merge(dl.remove(i)), ms.last()), dl[i]));
        assert(ms.remove(i).drop_last() =~= dl.remove(i));
        assert(ms.remove(i).last() == ms.last());
        assert(fold_merge(ms.remove(i)) == merge_model(fold_merge(dl.remove(i)), ms.last()));
        assert(dl[i] == ms[i]);
    }
}

/// Merge order independence: folding the same partial maps in any
/// order — any two sequences with equal multisets — produces the same
/// final map.
pub proof fn lemma_fold_merge_permutation(
    ms1: Seq<Map<Seq<u8>, AggModel>>,
    ms2: Seq<Map<Seq<u8>, AggModel>>,
)
    requires
        ms1.to_multiset() == ms2.to_multiset(),
    ensures
        fold_merge(ms1) == fold_merge(ms2),
    decreases ms2.len(),
{
    ms1.to_multiset_ensures();
    ms2.to_multiset_ensures();
    if ms2.len() == 0 {
        assert(ms1.len() == 0);
    } else {
        let x = ms2.last();
        assert(ms2.contains(x));
        assert(ms1.to_multiset().count(x) > 0);
        assert(ms1.contains(x));
        let i = choose|i: int| 0 <= i < ms1.len() && ms1[i] == x;
        lemma_fold_merge_pull(ms1, i);
        assert(ms2.drop_last() =~= ms2.remove(ms2.len() - 1));
        assert(ms2[ms2.len() - 1] == x);
        assert(ms1.remove(i).to_multiset() =~= ms2.drop_last().to_multiset());
        lemma_fold_merge_permutation(ms1.remove(i), ms2.drop_last());
    }
}

/// Idempotent empty regions: a region without a single well-formed
/// record contributes an empty map, and merging an empty map into any
/// map (on either side) is a no-op; `lemma_merge_empty` states the
/// second half.
pub proof fn lemma_empty_region(bytes: Seq<u8>)
    requires
        records_of(bytes).len() == 0,
    ensures
        region_model(bytes) == Map::<Seq<u8>, AggModel>::empty(),
        forall|m: Map<Seq<u8>, AggModel>| #[trigger] merge_model(m, region_model(bytes)) == m,
{
    assert forall|k: Seq<u8>| !region_model(bytes).contains_key(k) by {
        lemma_values_len(records_of(bytes), k);
    }
    assert(region_model(bytes) =~= Map::<Seq<u8>, AggModel>::empty());
    assert forall|m: Map<Seq<u8>, AggModel>| #[trigger] merge_model(m, region_model(bytes))
        == m by {
        lemma_merge_empty(m);
    }
}

} // verus!

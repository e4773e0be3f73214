//! The reducer and the whole sequential pipeline: fold partial result
//! maps into one, and run split, scan and reduce end to end. The
//! parallel driver only distributes `scan_region` calls over threads;
//! the result it must produce is the one specified here.
use vstd::prelude::*;
use crate::aggregate::AggModel;
use crate::aggregate::COUNT_CAP;
use crate::aggregate::agg_of;
use crate::aggregate::lemma_agg_of_props;
use crate::records::Rec;
use crate::records::lemma_records_len;
use crate::records::records_of;
use crate::records::lemma_records_append;
use crate::result_map::ResultMap;
use crate::result_map::grouped;
use crate::result_map::lemma_records_model_append;
use crate::result_map::lemma_records_model_grouped;
use crate::result_map::lemma_values_len;
use crate::result_map::map_wf;
use crate::result_map::merge_model;
use crate::result_map::records_model;
use crate::result_map::region_model;
use crate::result_map::values_of_recs;
use crate::scanner::scan_region;
use crate::splitter::Region;
use crate::splitter::split_regions;
use crate::text::LINE_BREAK;

verus! {

/// The models of a sequence of partial result maps.
pub open spec fn maps_of(ps: Seq<ResultMap>) -> Seq<Map<Seq<u8>, AggModel>> {
    ps.map_values(|p: ResultMap| p@)
}

/// Folding a sequence of map models left to right.
pub open spec fn fold_merge(ms: Seq<Map<Seq<u8>, AggModel>>) -> Map<Seq<u8>, AggModel>
    decreases ms.len(),
{
    if ms.len() == 0 {
        Map::empty()
    } else {
        merge_model(fold_merge(ms.drop_last()), ms.last())
    }
}

/// Total count a key carries across a sequence of map models.
pub open spec fn total_count(ms: Seq<Map<Seq<u8>, AggModel>>, k: Seq<u8>) -> int
    decreases ms.len(),
{
    if ms.len() == 0 {
        0
    } else {
        total_count(ms.drop_last(), k) + (if ms.last().contains_key(k) {
            ms.last()[k].count
        } else {
            0
        })
    }
}

/// The fold of a sequence of map models carries, for each key it knows,
/// the total count of that key; keys it does not know have total count
/// zero.
pub proof fn lemma_fold_count(ms: Seq<Map<Seq<u8>, AggModel>>, k: Seq<u8>)
    ensures
        fold_merge(ms).contains_key(k) ==> fold_merge(ms)[k].count == total_count(ms, k),
        !fold_merge(ms).contains_key(k) ==> total_count(ms, k) == 0,
    decreases ms.len(),
{
    if ms.len() > 0 {
        lemma_fold_count(ms.drop_last(), k);
    }
}

/// With well-formed maps, a prefix never carries more of a key than the
/// whole sequence.
pub proof fn lemma_total_count_prefix(ms: Seq<Map<Seq<u8>, AggModel>>, t: int, k: Seq<u8>)
    requires
        0 <= t <= ms.len(),
        forall|j: int| 0 <= j < ms.len() ==> map_wf(#[trigger] ms[j]),
    ensures
        total_count(ms.take(t), k) <= total_count(ms, k),
    decreases ms.len() - t,
{
    if t < ms.len() {
        lemma_total_count_prefix(ms, t + 1, k);
        assert(ms.take(t + 1).drop_last() =~= ms.take(t));
        assert(ms.take(t + 1).last() == ms[t]);
    } else {
        assert(ms.take(t) =~= ms);
    }
}

/// Folds the partial result maps of all regions into the final map,
/// combining aggregates for keys that appear in several regions.
#[verifier::loop_isolation(false)]
pub fn reduce(partials: &Vec<ResultMap>) -> (rm: ResultMap)
    requires
        forall|i: int| 0 <= i < partials@.len() ==> (#[trigger] partials@[i]).wf(),
        forall|k: Seq<u8>| total_count(maps_of(partials@), k) <= COUNT_CAP as int,
    ensures
        rm.wf(),
        rm@ == fold_merge(maps_of(partials@)),
{
    let ghost big = maps_of(partials@);
    let mut acc = ResultMap::new();
    proof {
        assert(big.take(0) =~= Seq::<Map<Seq<u8>, AggModel>>::empty());
        assert forall|j: int| 0 <= j < big.len() implies map_wf(#[trigger] big[j]) by {
            partials@[j].lemma_wf_facts();
        }
    }
    let n = partials.len();
    let mut i: usize = 0;
    while i < n
        invariant
            i <= n,
            acc.wf(),
            acc@ == fold_merge(big.take(i as int)),
        decreases n - i,
    {
        let p = &partials[i];
        proof {
            assert(big[i as int] == p@);
            assert forall|k: Seq<u8>| #[trigger] acc@.contains_key(k) && p@.contains_key(
                k,
            ) implies acc@[k].count + p@[k].count <= COUNT_CAP as int by {
                lemma_fold_count(big.take(i as int), k);
                assert(big.take(i + 1).drop_last() =~= big.take(i as int));
                assert(big.take(i + 1).last() == big[i as int]);
                assert(total_count(big.take(i + 1), k) == total_count(big.take(i as int), k)
                    + p@[k].count);
                lemma_total_count_prefix(big, i + 1, k);
            }
        }
        acc.combine_into(p);
        proof {
            assert(big.take(i + 1).drop_last() =~= big.take(i as int));
            assert(big.take(i + 1).last() == big[i as int]);
        }
        i = i + 1;
    }
    proof {
        assert(big.take(n as int) =~= big);
    }
    acc
}

/// The bytes a region selects from the buffer.
pub open spec fn region_bytes(s: Seq<u8>, r: Region) -> Seq<u8> {
    s.subrange(r.start as int, r.end as int)
}

/// Scans every region into its partial result map: one output per
/// input region, in input order. A parallel driver distributes exactly
/// these `scan_region` calls over worker threads; whatever the
/// completion order, each partial map is pinned to its region here.
#[verifier::loop_isolation(false)]
pub fn run_all(buffer: &[u8], regions: &Vec<Region>) -> (partials: Vec<ResultMap>)
    requires
        forall|i: int|
            0 <= i < regions@.len() ==> (#[trigger] regions@[i]).start <= regions@[i].end
                <= buffer@.len(),
    ensures
        partials@.len() == regions@.len(),
        forall|j: int|
            0 <= j < regions@.len() ==> (#[trigger] partials@[j]).wf() && partials@[j]@
                == region_model(region_bytes(buffer@, regions@[j])),
{
    let mut partials: Vec<ResultMap> = Vec::new();
    let n = regions.len();
    let mut i: usize = 0;
    while i < n
        invariant
            i <= n,
            partials@.len() == i,
            forall|j: int|
                0 <= j < i ==> (#[trigger] partials@[j]).wf() && partials@[j]@ == region_model(
                    region_bytes(buffer@, regions@[j]),
                ),
        decreases n - i,
    {
        let r = regions[i];
        let p = scan_region(buffer, r);
        partials.push(p);
        i = i + 1;
    }
    partials
}

/// The records of a sequence of regions, in order.
pub open spec fn rec_concat(s: Seq<u8>, regions: Seq<Region>) -> Seq<Rec>
    decreases regions.len(),
{
    if regions.len() == 0 {
        Seq::empty()
    } else {
        rec_concat(s, regions.drop_last()) + records_of(region_bytes(s, regions.last()))
    }
}

/// The byte position covered by the first `t` regions.
pub open spec fn covered_upto(regions: Seq<Region>, t: int) -> int {
    if t == 0 {
        0
    } else {
        regions[t - 1].end as int
    }
}

/// What a well-formed split guarantees of the region sequence it
/// returns.
pub open spec fn regions_wf(s: Seq<u8>, regions: Seq<Region>) -> bool {
    &&& regions.len() >= 1
    &&& regions[0].start == 0
    &&& regions[regions.len() - 1].end == s.len()
    &&& forall|i: int|
        0 <= i < regions.len() ==> (#[trigger] regions[i]).start <= regions[i].end <= s.len()
    &&& forall|i: int|
        0 <= i < regions.len() - 1 ==> (#[trigger] regions[i]).end == regions[i + 1].start
    &&& forall|i: int|
        1 <= i < regions.len() ==> (#[trigger] regions[i]).start == s.len() || (0
            < regions[i].start && s[regions[i].start - 1] == LINE_BREAK)
}

/// Line-aligned regions carve the record sequence of the buffer into
/// the record sequences of the regions: concatenating them in order
/// reproduces exactly the records of the covered prefix.
pub proof fn lemma_regions_records(s: Seq<u8>, regions: Seq<Region>, t: int)
    requires
        regions_wf(s, regions),
        0 <= t <= regions.len(),
    ensures
        records_of(s.subrange(0, covered_upto(regions, t))) == rec_concat(s, regions.take(t)),
    decreases t,
{
    if t == 0 {
        assert(s.subrange(0, 0) =~= Seq::<u8>::empty());
        assert(records_of(s.subrange(0, 0)) =~= Seq::<Rec>::empty());
        assert(rec_concat(s, regions.take(0)) =~= Seq::<Rec>::empty());
    } else {
        lemma_regions_records(s, regions, t - 1);
        let st = regions[t - 1].start as int;
        let en = regions[t - 1].end as int;
        assert(covered_upto(regions, t - 1) == st);
        let a = s.subrange(0, st);
        let b = s.subrange(st, en);
        assert(region_bytes(s, regions[t - 1]) == b);
        assert(s.subrange(0, en) =~= a + b);
        if st == s.len() {
            assert(en == s.len());
            assert(b.len() == 0);
            assert(a + b =~= a);
            assert(records_of(b) =~= Seq::<Rec>::empty());
            assert(records_of(s.subrange(0, en)) =~= records_of(a) + records_of(b));
        } else if st == 0 {
            lemma_records_append(a, b);
        } else {
            assert(s[st - 1] == LINE_BREAK);
            assert(a.last() == s[st - 1]);
            lemma_records_append(a, b);
        }
        assert(regions.take(t).drop_last() =~= regions.take(t - 1));
        assert(regions.take(t).last() == regions[t - 1]);
    }
}

/// Folding the per-region map models is the same as folding all records
/// of all regions in order.
pub proof fn lemma_rec_concat_fold(
    s: Seq<u8>,
    regions: Seq<Region>,
    ms: Seq<Map<Seq<u8>, AggModel>>,
)
    requires
        ms.len() == regions.len(),
        forall|j: int|
            0 <= j < ms.len() ==> ms[j] == records_model(
                records_of(region_bytes(s, #[trigger] regions[j])),
            ),
    ensures
        fold_merge(ms) == records_model(rec_concat(s, regions)),
    decreases ms.len(),
{
    if ms.len() == 0 {
        assert(rec_concat(s, regions) =~= Seq::<Rec>::empty());
    } else {
        let md = ms.drop_last();
        let rd = regions.drop_last();
        assert forall|j: int| 0 <= j < md.len() implies md[j] == records_model(
            records_of(region_bytes(s, #[trigger] rd[j])),
        ) by {
            assert(rd[j] == regions[j]);
            assert(md[j] == ms[j]);
        }
        lemma_rec_concat_fold(s, rd, md);
        assert(ms.last() == ms[ms.len() - 1]);
        assert(regions.last() == regions[ms.len() - 1]);
        lemma_records_model_append(
            rec_concat(s, rd),
            records_of(region_bytes(s, regions.last())),
        );
    }
}

/// Splits the buffer, scans every region, and reduces the partial maps:
/// the complete engine, run sequentially. The final map is exactly the
/// grouped reading of all records of the buffer, whatever region count
/// is requested.
#[verifier::loop_isolation(false)]
pub fn process(buffer: &[u8], desired_regions: usize) -> (rm: ResultMap)
    requires
        1 <= desired_regions,
    ensures
        rm.wf(),
        rm@ == region_model(buffer@),
{
    let regions = split_regions(buffer, desired_regions);
    let partials = run_all(buffer, &regions);
    proof {
        let s = buffer@;
        let ms = maps_of(partials@);
        assert(regions_wf(s, regions@));
        assert forall|j: int| 0 <= j < ms.len() implies ms[j] == records_model(
            records_of(region_bytes(s, #[trigger] regions@[j])),
        ) by {
            assert(ms[j] == partials@[j]@);
            lemma_records_model_grouped(records_of(region_bytes(s, regions@[j])));
        }
        lemma_rec_concat_fold(s, regions@, ms);
        lemma_regions_records(s, regions@, regions@.len() as int);
        assert(covered_upto(regions@, regions@.len() as int) == s.len());
        assert(s.subrange(0, s.len() as int) =~= s);
        assert(regions@.take(regions@.len() as int) =~= regions@);
        assert(fold_merge(ms) == records_model(records_of(s)));
        lemma_records_model_grouped(records_of(s));
        lemma_records_len(s);
        assert forall|k: Seq<u8>| total_count(ms, k) <= COUNT_CAP as int by {
            lemma_fold_count(ms, k);
            if fold_merge(ms).contains_key(k) {
                assert(grouped(records_of(s)).contains_key(k));
                lemma_agg_of_props(values_of_recs(records_of(s), k));
                lemma_values_len(records_of(s), k);
                assert(usize::MAX as int <= u64::MAX as int);
            }
        }
    }
    let rm = reduce(&partials);
    rm
}

} // verus!

//! The result map: keys to aggregates. Its mathematical model is a
//! `Map<Seq<u8>, AggModel>`; the executable representation is a pair of
//! parallel vectors with distinct keys, built incrementally by the
//! scanner and merged by the reducer.
use vstd::prelude::*;
use vstd::slice::slice_to_vec;
use crate::aggregate::Aggregate;
use crate::aggregate::AggModel;
use crate::aggregate::COUNT_CAP;
use crate::aggregate::RAW_MAX;
use crate::aggregate::agg_of;
use crate::aggregate::combine_model;
use crate::aggregate::from_value_model;
use crate::aggregate::model_wf;
use crate::aggregate::observe_model;
use vstd::pervasive::VecAdditionalExecFns;
use crate::records::Rec;
use crate::records::records_of;

verus! {

/// Folding one record into a map model: a new key gets a fresh
/// aggregate, a known key observes the value.
pub open spec fn step_model(m: Map<Seq<u8>, AggModel>, r: Rec) -> Map<Seq<u8>, AggModel> {
    if m.contains_key(r.0) {
        m.insert(r.0, observe_model(m[r.0], r.1))
    } else {
        m.insert(r.0, from_value_model(r.1))
    }
}

/// The map model built by folding a record sequence left to right.
pub open spec fn records_model(rs: Seq<Rec>) -> Map<Seq<u8>, AggModel>
    decreases rs.len(),
{
    if rs.len() == 0 {
        Map::empty()
    } else {
        step_model(records_model(rs.drop_last()), rs.last())
    }
}

/// Merging two map models: keys of either side, aggregates combined
/// where both sides know the key.
pub open spec fn merge_model(
    a: Map<Seq<u8>, AggModel>,
    b: Map<Seq<u8>, AggModel>,
) -> Map<Seq<u8>, AggModel> {
    Map::new(
        |k: Seq<u8>| a.contains_key(k) || b.contains_key(k),
        |k: Seq<u8>|
            if a.contains_key(k) && b.contains_key(k) {
                combine_model(a[k], b[k])
            } else if a.contains_key(k) {
                a[k]
            } else {
                b[k]
            },
    )
}

/// The values carried by the records with key `k`, in order.
pub open spec fn values_of_recs(rs: Seq<Rec>, k: Seq<u8>) -> Seq<int>
    decreases rs.len(),
{
    if rs.len() == 0 {
        Seq::empty()
    } else {
        let p = values_of_recs(rs.drop_last(), k);
        if rs.last().0 == k {
            p.push(rs.last().1)
        } else {
            p
        }
    }
}

/// The grouped reading of a record sequence: each key that occurs maps
/// to the fold of its values.
pub open spec fn grouped(rs: Seq<Rec>) -> Map<Seq<u8>, AggModel> {
    Map::new(
        |k: Seq<u8>| values_of_recs(rs, k).len() > 0,
        |k: Seq<u8>| agg_of(values_of_recs(rs, k)),
    )
}

/// What scanning a byte region must produce: its records, grouped.
pub open spec fn region_model(bytes: Seq<u8>) -> Map<Seq<u8>, AggModel> {
    grouped(records_of(bytes))
}

/// Every aggregate of the map model is well formed.
pub open spec fn map_wf(m: Map<Seq<u8>, AggModel>) -> bool {
    forall|k: Seq<u8>| #[trigger] m.contains_key(k) ==> model_wf(m[k])
}

/// Merging with an empty map changes nothing.
pub proof fn lemma_merge_empty(m: Map<Seq<u8>, AggModel>)
    ensures
        merge_model(m, Map::empty()) == m,
        merge_model(Map::empty(), m) == m,
{
    assert(merge_model(m, Map::empty()) =~= m);
    assert(merge_model(Map::empty(), m) =~= m);
}

/// Merging is commutative.
pub proof fn lemma_merge_commutative(a: Map<Seq<u8>, AggModel>, b: Map<Seq<u8>, AggModel>)
    ensures
        merge_model(a, b) == merge_model(b, a),
{
    assert(merge_model(a, b) =~= merge_model(b, a));
}

/// Merging is associative.
pub proof fn lemma_merge_associative(
    a: Map<Seq<u8>, AggModel>,
    b: Map<Seq<u8>, AggModel>,
    c: Map<Seq<u8>, AggModel>,
)
    ensures
        merge_model(merge_model(a, b), c) == merge_model(a, merge_model(b, c)),
{
    assert(merge_model(merge_model(a, b), c) =~= merge_model(a, merge_model(b, c)));
}

/// Folding one more record is a step on the fold of the prefix.
pub proof fn lemma_records_model_push(rs: Seq<Rec>, r: Rec)
    ensures
        records_model(rs.push(r)) == step_model(records_model(rs), r),
{
    assert(rs.push(r).drop_last() =~= rs);
    assert(rs.push(r).last() == r);
}

/// A key has no more values than there are records.
pub proof fn lemma_values_len(rs: Seq<Rec>, k: Seq<u8>)
    ensures
        values_of_recs(rs, k).len() <= rs.len(),
    decreases rs.len(),
{
    if rs.len() > 0 {
        lemma_values_len(rs.drop_last(), k);
    }
}

/// The fold of a record sequence is exactly its grouped reading.
pub proof fn lemma_records_model_grouped(rs: Seq<Rec>)
    ensures
        records_model(rs) == grouped(rs),
    decreases rs.len(),
{
    if rs.len() == 0 {
        assert(records_model(rs) =~= grouped(rs));
    } else {
        let dl = rs.drop_last();
        let r = rs.last();
        lemma_records_model_grouped(dl);
        assert forall|k: Seq<u8>|
            grouped(rs).contains_key(k) == step_model(grouped(dl), r).contains_key(k) && (grouped(
                rs,
            ).contains_key(k) ==> grouped(rs)[k] == step_model(grouped(dl), r)[k]) by {
            if k == r.0 {
                let vs = values_of_recs(dl, k);
                assert(values_of_recs(rs, k) == vs.push(r.1));
                if vs.len() > 0 {
                    assert(vs.push(r.1).drop_last() =~= vs);
                    assert(vs.push(r.1).last() == r.1);
                    assert(agg_of(vs.push(r.1)) == observe_model(agg_of(vs), r.1));
                } else {
                    assert(vs.push(r.1) =~= seq![r.1]);
                    assert(agg_of(vs.push(r.1)) == from_value_model(r.1));
                }
            } else {
                assert(values_of_recs(rs, k) == values_of_recs(dl, k));
            }
        }
        assert(records_model(rs) =~= grouped(rs));
    }
}

/// Folding the concatenation of two record sequences is merging their
/// separate folds; partial results can therefore be scanned apart and
/// merged later.
pub proof fn lemma_records_model_append(rs1: Seq<Rec>, rs2: Seq<Rec>)
    ensures
        records_model(rs1 + rs2) == merge_model(records_model(rs1), records_model(rs2)),
    decreases rs2.len(),
{
    if rs2.len() == 0 {
        assert(rs1 + rs2 =~= rs1);
        lemma_merge_empty(records_model(rs1));
    } else {
        let dl = rs2.drop_last();
        let r = rs2.last();
        lemma_records_model_append(rs1, dl);
        assert((rs1 + rs2).drop_last() =~= rs1 + dl);
        assert((rs1 + rs2).last() == r);
        assert(records_model(rs1 + rs2) == step_model(records_model(rs1 + dl), r));
        let m1 = records_model(rs1);
        let m2 = records_model(dl);
        assert(step_model(merge_model(m1, m2), r) =~= merge_model(m1, step_model(m2, r)));
        assert(records_model(rs2) == step_model(m2, r));
    }
}

/// Map model of the parallel key and aggregate vectors.
pub open spec fn kv_map(keys: Seq<Vec<u8>>, aggs: Seq<Aggregate>) -> Map<Seq<u8>, AggModel>
    decreases keys.len(),
{
    if keys.len() == 0 || aggs.len() == 0 {
        Map::empty()
    } else {
        kv_map(keys.drop_last(), aggs.drop_last()).insert(keys.last()@, aggs.last()@)
    }
}

pub open spec fn keys_distinct(keys: Seq<Vec<u8>>) -> bool {
    forall|i: int, j: int| 0 <= i < j < keys.len() ==> keys[i]@ != keys[j]@
}

/// With distinct keys, the kv model contains exactly the listed keys,
/// each mapped to its listed aggregate, and its domain is finite with
/// one element per entry.
pub proof fn lemma_kv_props(keys: Seq<Vec<u8>>, aggs: Seq<Aggregate>)
    requires
        keys.len() == aggs.len(),
        keys_distinct(keys),
    ensures
        forall|k: Seq<u8>|
            #[trigger] kv_map(keys, aggs).contains_key(k) <==> exists|i: int|
                0 <= i < keys.len() && keys[i]@ == k,
        forall|i: int|
            0 <= i < keys.len() ==> kv_map(keys, aggs).contains_key(#[trigger] keys[i]@) && kv_map(
                keys,
                aggs,
            )[keys[i]@] == aggs[i]@,
        kv_map(keys, aggs).dom().finite(),
        kv_map(keys, aggs).dom().len() == keys.len(),
    decreases keys.len(),
{
    if keys.len() > 0 {
        let kd = keys.drop_last();
        let ad = aggs.drop_last();
        assert forall|i: int, j: int| 0 <= i < j < kd.len() implies kd[i]@ != kd[j]@ by {
            assert(kd[i] == keys[i] && kd[j] == keys[j]);
        }
        lemma_kv_props(kd, ad);
        let m = kv_map(keys, aggs);
        assert forall|k: Seq<u8>| #[trigger] m.contains_key(k) implies exists|i: int|
            0 <= i < keys.len() && keys[i]@ == k by {
            if k == keys.last()@ {
                assert(keys[keys.len() - 1]@ == k);
            } else {
                let i = choose|i: int| 0 <= i < kd.len() && kd[i]@ == k;
                assert(keys[i]@ == k);
            }
        }
        assert forall|k: Seq<u8>| (exists|i: int| 0 <= i < keys.len() && keys[i]@ == k) implies
            #[trigger] m.contains_key(k) by {
            let i = choose|i: int| 0 <= i < keys.len() && keys[i]@ == k;
            if i < keys.len() - 1 {
                assert(kd[i]@ == k);
            }
        }
        assert forall|i: int| 0 <= i < keys.len() implies m.contains_key(#[trigger] keys[i]@)
            && m[keys[i]@] == aggs[i]@ by {
            if i < keys.len() - 1 {
                assert(kd[i]@ == keys[i]@);
                assert(keys[i]@ != keys.last()@);
                assert(kv_map(kd, ad)[keys[i]@] == ad[i]@);
            }
        }
        assert(!kv_map(kd, ad).contains_key(keys.last()@));
        assert(m.dom() =~= kv_map(kd, ad).dom().insert(keys.last()@));
    }
}

/// Replacing the aggregate at one position updates the model at that
/// key alone.
pub proof fn lemma_kv_update(keys: Seq<Vec<u8>>, aggs: Seq<Aggregate>, j: int, a: Aggregate)
    requires
        keys.len() == aggs.len(),
        keys_distinct(keys),
        0 <= j < keys.len(),
    ensures
        kv_map(keys, aggs.update(j, a)) == kv_map(keys, aggs).insert(keys[j]@, a@),
    decreases keys.len(),
{
    let au = aggs.update(j, a);
    if j == keys.len() - 1 {
        assert(au.drop_last() =~= aggs.drop_last());
        assert(au.last() == a);
        assert(kv_map(keys, au) =~= kv_map(keys, aggs).insert(keys[j]@, a@));
    } else {
        let kd = keys.drop_last();
        let ad = aggs.drop_last();
        assert forall|i0: int, j0: int| 0 <= i0 < j0 < kd.len() implies kd[i0]@ != kd[j0]@ by {
            assert(kd[i0] == keys[i0] && kd[j0] == keys[j0]);
        }
        lemma_kv_update(kd, ad, j, a);
        assert(au.drop_last() =~= ad.update(j, a));
        assert(au.last() == aggs.last());
        assert(kd[j]@ == keys[j]@);
        assert(keys[j]@ != keys.last()@);
        assert(kv_map(keys, au) == kv_map(kd, ad.update(j, a)).insert(
            keys.last()@,
            aggs.last()@,
        ));
        assert(kv_map(kd, ad).insert(keys[j]@, a@).insert(keys.last()@, aggs.last()@)
            =~= kv_map(kd, ad).insert(keys.last()@, aggs.last()@).insert(keys[j]@, a@));
    }
}

/// One merge step for a key both sides know.
proof fn lemma_merge_step_known(
    base: Map<Seq<u8>, AggModel>,
    prefix: Map<Seq<u8>, AggModel>,
    ks: Seq<u8>,
    oa: AggModel,
)
    requires
        !prefix.contains_key(ks),
        base.contains_key(ks),
    ensures
        merge_model(base, prefix).insert(ks, combine_model(base[ks], oa)) == merge_model(
            base,
            prefix.insert(ks, oa),
        ),
{
    let lhs = merge_model(base, prefix).insert(ks, combine_model(base[ks], oa));
    let rhs = merge_model(base, prefix.insert(ks, oa));
    assert forall|k: Seq<u8>| lhs.contains_key(k) == rhs.contains_key(k) && (lhs.contains_key(k)
        ==> lhs[k] == rhs[k]) by {
        if k != ks {
            assert(prefix.insert(ks, oa).contains_key(k) == prefix.contains_key(k));
        }
    }
    assert(lhs =~= rhs);
}

/// One merge step for a key neither side knows yet.
proof fn lemma_merge_step_fresh(
    base: Map<Seq<u8>, AggModel>,
    prefix: Map<Seq<u8>, AggModel>,
    ks: Seq<u8>,
    oa: AggModel,
)
    requires
        !prefix.contains_key(ks),
        !base.contains_key(ks),
    ensures
        merge_model(base, prefix).insert(ks, oa) == merge_model(base, prefix.insert(ks, oa)),
{
    let lhs = merge_model(base, prefix).insert(ks, oa);
    let rhs = merge_model(base, prefix.insert(ks, oa));
    assert forall|k: Seq<u8>| lhs.contains_key(k) == rhs.contains_key(k) && (lhs.contains_key(k)
        ==> lhs[k] == rhs[k]) by {
        if k != ks {
            assert(prefix.insert(ks, oa).contains_key(k) == prefix.contains_key(k));
        }
    }
    assert(lhs =~= rhs);
}

/// Compares two byte strings.
fn bytes_eq(a: &[u8], b: &[u8]) -> (r: bool)
    ensures
        r == (a@ == b@),
{
    let n = a.len();
    if n != b.len() {
        proof {
            assert(a@.len() != b@.len());
        }
        return false;
    }
    let mut i: usize = 0;
    while i < n
        invariant
            i <= n,
            n == a@.len(),
            n == b@.len(),
            forall|j: int| 0 <= j < i ==> a@[j] == b@[j],
        decreases n - i,
    {
        if a[i] != b[i] {
            return false;
        }
        i = i + 1;
    }
    proof {
        assert(a@ =~= b@);
    }
    true
}

/// Mapping from key to aggregate: the output of one region scan, and of
/// the final reduction. Keys are unique; insertion order carries no
/// meaning.
pub struct ResultMap {
    keys: Vec<Vec<u8>>,
    aggs: Vec<Aggregate>,
}

impl View for ResultMap {
    type V = Map<Seq<u8>, AggModel>;

    closed spec fn view(&self) -> Map<Seq<u8>, AggModel> {
        kv_map(self.keys@, self.aggs@)
    }
}

impl ResultMap {
    /// Internal invariant: parallel vectors of equal length, keys
    /// distinct, every aggregate well formed.
    pub closed spec fn wf(self) -> bool {
        &&& self.keys@.len() == self.aggs@.len()
        &&& keys_distinct(self.keys@)
        &&& forall|i: int| 0 <= i < self.aggs@.len() ==> (#[trigger] self.aggs@[i]).wf()
    }

    /// The keys, in insertion order.
    pub closed spec fn key_seq(self) -> Seq<Seq<u8>> {
        self.keys@.map_values(|k: Vec<u8>| k@)
    }

    /// What well-formedness gives a caller: every aggregate of the model
    /// is well formed, and the domain is finite, with one key per entry
    /// of `key_seq`.
    pub proof fn lemma_wf_facts(self)
        requires
            self.wf(),
        ensures
            map_wf(self@),
            self@.dom().finite(),
            self@.dom().len() == self.key_seq().len(),
            forall|i: int|
                0 <= i < self.key_seq().len() ==> #[trigger] self@.contains_key(self.key_seq()[i]),
    {
        lemma_kv_props(self.keys@, self.aggs@);
        assert forall|k: Seq<u8>| #[trigger] self@.contains_key(k) implies model_wf(self@[k]) by {
            let i = choose|i: int| 0 <= i < self.keys@.len() && self.keys@[i]@ == k;
            assert(self.aggs@[i].wf());
        }
        assert forall|i: int| 0 <= i < self.key_seq().len() implies #[trigger] self@.contains_key(
            self.key_seq()[i],
        ) by {
            assert(self.keys@[i]@ == self.key_seq()[i]);
        }
    }

    /// The empty map.
    pub fn new() -> (r: ResultMap)
        ensures
            r.wf(),
            r@ == Map::<Seq<u8>, AggModel>::empty(),
            r.key_seq() == Seq::<Seq<u8>>::empty(),
    {
        let r = ResultMap { keys: Vec::new(), aggs: Vec::new() };
        proof {
            assert(r.key_seq() =~= Seq::<Seq<u8>>::empty());
        }
        r
    }

    /// Position of a key, if present.
    fn find_key(&self, key: &[u8]) -> (r: Option<usize>)
        ensures
            match r {
                Some(i) => i < self.keys@.len() && self.keys@[i as int]@ == key@,
                None => forall|i: int| 0 <= i < self.keys@.len() ==> self.keys@[i]@ != key@,
            },
    {
        let n = self.keys.len();
        let mut i: usize = 0;
        while i < n
            invariant
                i <= n,
                n == self.keys@.len(),
                forall|j: int| 0 <= j < i ==> self.keys@[j]@ != key@,
            decreases n - i,
        {
            if bytes_eq(self.keys[i].as_slice(), key) {
                return Some(i);
            }
            i = i + 1;
        }
        None
    }

    /// Number of distinct keys.
    pub fn len(&self) -> (n: usize)
        requires
            self.wf(),
        ensures
            n == self@.dom().len(),
            n == self.key_seq().len(),
    {
        proof {
            self.lemma_wf_facts();
        }
        self.keys.len()
    }

    /// The aggregate for a key, if the key has one.
    pub fn get(&self, key: &[u8]) -> (r: Option<Aggregate>)
        requires
            self.wf(),
        ensures
            match r {
                None => !self@.contains_key(key@),
                Some(a) => self@.contains_key(key@) && a@ == self@[key@],
            },
    {
        proof {
            lemma_kv_props(self.keys@, self.aggs@);
        }
        match self.find_key(key) {
            Some(i) => Some(self.aggs[i]),
            None => None,
        }
    }

    /// The key at one position of the insertion order.
    pub fn key_at(&self, i: usize) -> (k: &Vec<u8>)
        requires
            self.wf(),
            i < self.key_seq().len(),
        ensures
            k@ == self.key_seq()[i as int],
            self@.contains_key(k@),
    {
        proof {
            self.lemma_wf_facts();
        }
        &self.keys[i]
    }

    /// The aggregate at one position of the insertion order.
    pub fn agg_at(&self, i: usize) -> (a: Aggregate)
        requires
            self.wf(),
            i < self.key_seq().len(),
        ensures
            a@ == self@[self.key_seq()[i as int]],
    {
        proof {
            lemma_kv_props(self.keys@, self.aggs@);
            assert(self.keys@[i as int]@ == self.key_seq()[i as int]);
        }
        self.aggs[i]
    }

    /// Folds one record into the map.
    pub fn observe(&mut self, key: Vec<u8>, v: i64)
        requires
            old(self).wf(),
            -RAW_MAX <= v <= RAW_MAX,
            old(self)@.contains_key(key@) ==> old(self)@[key@].count < COUNT_CAP as int,
        ensures
            final(self).wf(),
            final(self)@ == step_model(old(self)@, (key@, v as int)),
    {
        proof {
            lemma_kv_props(self.keys@, self.aggs@);
        }
        match self.find_key(key.as_slice()) {
            Some(i) => {
                let mut a = self.aggs[i];
                proof {
                    assert(a@ == self@[key@]);
                }
                a.observe(v);
                self.aggs.set(i, a);
                proof {
                    lemma_kv_update(self.keys@, old(self).aggs@, i as int, a);
                }
            },
            None => {
                let a = Aggregate::from_value(v);
                self.keys.push(key);
                self.aggs.push(a);
                proof {
                    assert(self.keys@.drop_last() =~= old(self).keys@);
                    assert(self.aggs@.drop_last() =~= old(self).aggs@);
                    assert forall|i0: int, j0: int| 0 <= i0 < j0 < self.keys@.len() implies
                        self.keys@[i0]@ != self.keys@[j0]@ by {
                        if j0 < self.keys@.len() - 1 {
                            assert(self.keys@[i0] == old(self).keys@[i0]);
                            assert(self.keys@[j0] == old(self).keys@[j0]);
                        } else {
                            assert(self.keys@[i0] == old(self).keys@[i0]);
                            assert(self.keys@[j0]@ == key@);
                        }
                    }
                }
            },
        }
    }

    /// Merges another map into this one, combining aggregates for keys
    /// known to both.
    #[verifier::loop_isolation(false)]
    pub fn combine_into(&mut self, other: &ResultMap)
        requires
            old(self).wf(),
            other.wf(),
            forall|k: Seq<u8>|
                #[trigger] old(self)@.contains_key(k) && other@.contains_key(k) ==> old(
                    self,
                )@[k].count + other@[k].count <= COUNT_CAP as int,
        ensures
            final(self).wf(),
            final(self)@ == merge_model(old(self)@, other@),
    {
        let n = other.keys.len();
        proof {
            lemma_kv_props(other.keys@, other.aggs@);
            assert(kv_map(other.keys@.take(0), other.aggs@.take(0)) =~= Map::<
                Seq<u8>,
                AggModel,
            >::empty());
            lemma_merge_empty(old(self)@);
        }
        let mut i: usize = 0;
        while i < n
            invariant
                i <= n,
                self.wf(),
                self@ == merge_model(old(self)@, kv_map(other.keys@.take(i as int), other.aggs@.take(i as int))),
            decreases n - i,
        {
            let ghost prefix = kv_map(other.keys@.take(i as int), other.aggs@.take(i as int));
            let ghost ks = other.keys@[i as int]@;
            proof {
                assert forall|i0: int, j0: int|
                    0 <= i0 < j0 < other.keys@.take(i as int).len() implies other.keys@.take(
                    i as int,
                )[i0]@ != other.keys@.take(i as int)[j0]@ by {
                    assert(other.keys@[i0]@ != other.keys@[j0]@);
                }
                assert(other.aggs@.take(i as int).len() == other.keys@.take(i as int).len());
                lemma_kv_props(other.keys@.take(i as int), other.aggs@.take(i as int));
                assert(!prefix.contains_key(ks)) by {
                    if prefix.contains_key(ks) {
                        let i0 = choose|i0: int|
                            0 <= i0 < other.keys@.take(i as int).len() && other.keys@.take(
                                i as int,
                            )[i0]@ == ks;
                        assert(other.keys@[i0]@ == other.keys@[i as int]@);
                    }
                }
                assert(other.keys@.take(i + 1).drop_last() =~= other.keys@.take(i as int));
                assert(other.aggs@.take(i + 1).drop_last() =~= other.aggs@.take(i as int));
                assert(kv_map(other.keys@.take(i + 1), other.aggs@.take(i + 1)) == prefix.insert(
                    ks,
                    other.aggs@[i as int]@,
                ));
                lemma_kv_props(self.keys@, self.aggs@);
            }
            let oa = other.aggs[i];
            proof {
                assert(oa@ == other@[ks]);
            }
            match self.find_key(other.keys[i].as_slice()) {
                Some(j) => {
                    let ghost aggs0 = self.aggs@;
                    proof {
                        assert(self@.contains_key(ks));
                        assert(self@[ks] == self.aggs@[j as int]@);
                        assert(old(self)@.contains_key(ks));
                        assert(self@[ks] == old(self)@[ks]);
                    }
                    let merged = self.aggs[j].combine(&oa);
                    self.aggs.set(j, merged);
                    proof {
                        lemma_kv_update(self.keys@, aggs0, j as int, merged);
                        assert(self@ == kv_map(self.keys@, aggs0).insert(ks, merged@));
                        lemma_merge_step_known(old(self)@, prefix, ks, oa@);
                    }
                },
                None => {
                    let ghost keys0 = self.keys@;
                    let ghost aggs0 = self.aggs@;
                    let ghost pre = self@;
                    proof {
                        assert(!pre.contains_key(ks));
                        assert(!old(self)@.contains_key(ks));
                        assert(!prefix.contains_key(ks));
                    }
                    let kc = slice_to_vec(other.keys[i].as_slice());
                    self.keys.push(kc);
                    self.aggs.push(oa);
                    proof {
                        assert(self.keys@.drop_last() =~= keys0);
                        assert(self.aggs@.drop_last() =~= aggs0);
                        assert(self.keys@.last()@ == ks);
                        assert(self@ == pre.insert(ks, oa@));
                        assert forall|i0: int, j0: int| 0 <= i0 < j0 < self.keys@.len() implies
                            self.keys@[i0]@ != self.keys@[j0]@ by {
                            if j0 < self.keys@.len() - 1 {
                                assert(self.keys@[i0] == keys0[i0]);
                                assert(self.keys@[j0] == keys0[j0]);
                            } else {
                                assert(self.keys@[i0] == keys0[i0]);
                                assert(self.keys@[j0]@ == ks);
                            }
                        }
                        lemma_merge_step_fresh(old(self)@, prefix, ks, oa@);
                    }
                },
            }
            proof {
                assert(self@ =~= merge_model(
                    old(self)@,
                    kv_map(other.keys@.take(i + 1), other.aggs@.take(i + 1)),
                ));
            }
            i = i + 1;
        }
        proof {
            assert(other.keys@.take(n as int) =~= other.keys@);
            assert(other.aggs@.take(n as int) =~= other.aggs@);
        }
    }
}

} // verus!

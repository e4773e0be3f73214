//! The region scanner: parses one line-aligned byte range into a
//! partial result map, one record per well-formed line, silently
//! skipping malformed lines.
use vstd::prelude::*;
use vstd::slice::slice_subrange;
use crate::aggregate::COUNT_CAP;
use crate::aggregate::agg_of;
use crate::records::Rec;
use crate::records::lemma_records_len;
use crate::records::line_record;
use crate::records::parse_measurement;
use crate::records::rec_seq;
use crate::records::records_of;
use crate::result_map::ResultMap;
use crate::result_map::grouped;
use crate::result_map::lemma_records_model_grouped;
use crate::result_map::lemma_records_model_push;
use crate::result_map::records_model;
use crate::result_map::region_model;
use crate::result_map::values_of_recs;
use crate::result_map::lemma_values_len;
use crate::aggregate::lemma_agg_of_props;
use crate::splitter::Region;
use crate::text::FIELD_SEP;
use crate::text::LINE_BREAK;
use crate::text::find_byte_within;
use crate::text::norm_key;
use crate::text::normalize_key;

verus! {

/// Scans the region `[region.start, region.end)` of the buffer and
/// returns the map of its records, grouped by key.
#[verifier::loop_isolation(false)]
pub fn scan_region(buffer: &[u8], region: Region) -> (rm: ResultMap)
    requires
        region.start <= region.end,
        region.end <= buffer@.len(),
    ensures
        rm.wf(),
        rm@ == region_model(buffer@.subrange(region.start as int, region.end as int)),
{
    let ghost full = buffer@.subrange(region.start as int, region.end as int);
    let mut rm = ResultMap::new();
    let ghost mut done: Seq<Rec> = Seq::empty();
    let mut pos = region.start;
    proof {
        assert(done + records_of(full) =~= records_of(full));
        lemma_records_len(full);
        assert(usize::MAX as int <= u64::MAX as int);
    }
    while pos < region.end
        invariant
            region.start <= pos <= region.end,
            rm.wf(),
            rm@ == records_model(done),
            done + records_of(buffer@.subrange(pos as int, region.end as int)) == records_of(
                full,
            ),
        decreases region.end - pos,
    {
        let ghost rest = buffer@.subrange(pos as int, region.end as int);
        let nl = find_byte_within(buffer, pos, region.end, LINE_BREAK);
        let line_end = match nl {
            Some(p) => p,
            None => region.end,
        };
        let ghost line_v = buffer@.subrange(pos as int, line_end as int);
        let ghost next_pos = match nl {
            Some(p) => p + 1,
            None => region.end as int,
        };
        let ghost rest_after = buffer@.subrange(next_pos, region.end as int);
        proof {
            match nl {
                Some(p) => {
                    assert(rest.subrange(0, p - pos) =~= line_v);
                    assert(rest.subrange(p - pos + 1, rest.len() as int) =~= rest_after);
                    assert(records_of(rest) == rec_seq(line_record(line_v)) + records_of(
                        rest_after,
                    ));
                },
                None => {
                    assert(rest =~= line_v);
                    assert(rest_after.len() == 0);
                    assert(records_of(rest_after) =~= Seq::<Rec>::empty());
                    assert(records_of(rest) == rec_seq(line_record(line_v)));
                },
            }
        }
        let line = slice_subrange(buffer, pos, line_end);
        match find_byte_within(line, 0, line.len(), FIELD_SEP) {
            Some(j) => {
                proof {
                    assert(line@.subrange(0, line@.len() as int) =~= line_v);
                }
                let vb = slice_subrange(line, j + 1, line.len());
                match parse_measurement(vb) {
                    Some(v) => {
                        let kb = slice_subrange(line, 0, j);
                        let key = normalize_key(kb);
                        let ghost rec = (norm_key(kb@), v as int);
                        proof {
                            assert(line_record(line_v) == Some(rec));
                            lemma_records_model_grouped(done);
                            lemma_values_len(done, key@);
                            if rm@.contains_key(key@) {
                                assert(rm@[key@] == agg_of(values_of_recs(done, key@)));
                                lemma_agg_of_props(values_of_recs(done, key@));
                                assert(done.len() <= records_of(full).len());
                                assert(rm@[key@].count < COUNT_CAP as int);
                            }
                        }
                        rm.observe(key, v);
                        proof {
                            lemma_records_model_push(done, rec);
                            done = done.push(rec);
                        }
                    },
                    None => {
                        proof {
                            assert(line_record(line_v) is None);
                        }
                    },
                }
            },
            None => {
                proof {
                    assert(line@.subrange(0, line@.len() as int) =~= line_v);
                    assert(line_record(line_v) is None);
                }
            },
        }
        pos = match nl {
            Some(p) => p + 1,
            None => region.end,
        };
        proof {
            assert(done + records_of(rest_after) =~= records_of(full));
        }
    }
    proof {
        assert(buffer@.subrange(region.end as int, region.end as int).len() == 0);
        assert(records_of(buffer@.subrange(region.end as int, region.end as int)) =~= Seq::<
            Rec,
        >::empty());
        assert(done =~= records_of(full));
        lemma_records_model_grouped(done);
    }
    rm
}

} // verus!

use station_stats::aggregate::Aggregate;
use station_stats::aggregate::SCALE;
use station_stats::pipeline::process;
use station_stats::pipeline::reduce;
use station_stats::pipeline::run_all;
use station_stats::result_map::ResultMap;
use station_stats::scanner::scan_region;
use station_stats::splitter::split_regions;
use station_stats::splitter::Region;

fn units(v: i64) -> i64 {
    v * SCALE
}

fn expect(m: &ResultMap, key: &[u8], min: i64, max: i64, sum: i64, count: u128) {
    let a = m.get(key).expect("key must be present");
    assert_eq!(a.min, min);
    assert_eq!(a.max, max);
    assert_eq!(a.sum, sum as i128);
    assert_eq!(a.count, count);
}

#[test]
fn test_weather_station_calculations() {
    let data =
        b"station1;10\nstation1;20\nstation2;15.5\nstation2;25.5\nstation3;-5.5\nstation3;-2.5\n"
            .to_vec();
    let results = process(&data, 10);

    let station1 = results.get(b"station1").unwrap();
    assert_eq!(station1.min, units(10));
    assert_eq!(station1.max, units(20));
    assert_eq!(station1.sum, units(30) as i128);
    assert_eq!(station1.count, 2);

    let station2 = results.get(b"station2").unwrap();
    assert_eq!(station2.min, 155_000);
    assert_eq!(station2.max, 255_000);
    assert_eq!(station2.sum, units(41) as i128);
    assert_eq!(station2.count, 2);

    let station3 = results.get(b"station3").unwrap();
    assert_eq!(station3.min, -55_000);
    assert_eq!(station3.max, -25_000);
    assert_eq!(station3.sum, units(-8) as i128);
    assert_eq!(station3.count, 2);
}

#[test]
fn example_reduces_to_expected_aggregates_for_any_split() {
    let data = b"A;10.0\nB;15.5\nA;20.0\nB;25.5\nC;-5.5\nC;-2.5\n".to_vec();
    for desired in [1usize, 2, 3, 4, 7, 10] {
        let m = process(&data, desired);
        assert_eq!(m.len(), 3);
        expect(&m, b"A", units(10), units(20), units(30), 2);
        expect(&m, b"B", 155_000, 255_000, units(41), 2);
        expect(&m, b"C", -55_000, -25_000, units(-8), 2);
    }
}

#[test]
fn malformed_line_without_separator_contributes_nothing() {
    let data = b"A;1.0\nX10.0\nB;2.0\n".to_vec();
    let m = process(&data, 3);
    assert_eq!(m.len(), 2);
    assert!(m.get(b"X10.0").is_none());
    assert!(m.get(b"X").is_none());
    expect(&m, b"A", units(1), units(1), units(1), 1);
    expect(&m, b"B", units(2), units(2), units(2), 1);
}

#[test]
fn malformed_value_is_skipped_without_failing_the_scan() {
    let data = b"A;abc\nA;3.5\nB;\nB;nan\nC;1.2.3\n".to_vec();
    let m = process(&data, 2);
    assert_eq!(m.len(), 1);
    expect(&m, b"A", 35_000, 35_000, 35_000, 1);
    assert!(m.get(b"B").is_none());
    assert!(m.get(b"C").is_none());
}

#[test]
fn more_regions_than_lines_still_produces_correct_result() {
    let data = b"A;1\nB;2\n".to_vec();
    let m = process(&data, 50);
    assert_eq!(m.len(), 2);
    expect(&m, b"A", units(1), units(1), units(1), 1);
    expect(&m, b"B", units(2), units(2), units(2), 1);
}

#[test]
fn empty_buffer_yields_empty_result() {
    let data: Vec<u8> = Vec::new();
    let m = process(&data, 10);
    assert_eq!(m.len(), 0);
}

#[test]
fn split_covers_buffer_contiguously_and_line_aligned() {
    let data = b"aa;1\nbbbb;2\nc;3\ndddddd;4\ne;5\n".to_vec();
    for desired in [1usize, 2, 3, 5, 9, 40] {
        let regions = split_regions(&data, desired);
        assert_eq!(regions.len(), desired);
        assert_eq!(regions[0].start, 0);
        assert_eq!(regions[desired - 1].end, data.len());
        let mut rebuilt: Vec<u8> = Vec::new();
        for (i, r) in regions.iter().enumerate() {
            assert!(r.start <= r.end && r.end <= data.len());
            if i + 1 < desired {
                assert_eq!(r.end, regions[i + 1].start);
            }
            if i >= 1 {
                // every internal boundary is the buffer end or sits just
                // past a line break
                assert!(r.start == data.len() || data[r.start - 1] == b'\n');
            }
            rebuilt.extend_from_slice(&data[r.start..r.end]);
        }
        assert_eq!(rebuilt, data);
    }
}

#[test]
fn merge_order_does_not_change_the_result() {
    let data = b"A;1\nB;2\nA;3\nC;4\nB;5\nA;6\n".to_vec();
    let regions = split_regions(&data, 3);
    let mut partials: Vec<ResultMap> = Vec::new();
    for r in regions.iter() {
        partials.push(scan_region(&data, *r));
    }
    let forward = reduce(&partials);
    partials.reverse();
    let backward = reduce(&partials);
    assert_eq!(forward.len(), backward.len());
    for key in [b"A".as_slice(), b"B".as_slice(), b"C".as_slice()] {
        let f = forward.get(key).unwrap();
        let g = backward.get(key).unwrap();
        assert_eq!(f.min, g.min);
        assert_eq!(f.max, g.max);
        assert_eq!(f.sum, g.sum);
        assert_eq!(f.count, g.count);
    }
}

#[test]
fn empty_region_scans_to_empty_map_and_merging_it_changes_nothing() {
    let data = b"A;1\nB;2\n".to_vec();
    let empty_region = Region { start: data.len(), end: data.len() };
    let empty = scan_region(&data, empty_region);
    assert_eq!(empty.len(), 0);

    let full_region = Region { start: 0, end: data.len() };
    let mut m = scan_region(&data, full_region);
    m.combine_into(&empty);
    assert_eq!(m.len(), 2);
    expect(&m, b"A", units(1), units(1), units(1), 1);
    expect(&m, b"B", units(2), units(2), units(2), 1);
}

#[test]
fn completeness_counts_and_sums_every_well_formed_line() {
    let data = b"k;1.5\nk;2.5\nother;7\nk;-1\nnoise\nk;0.25\n".to_vec();
    let m = process(&data, 4);
    let k = m.get(b"k").unwrap();
    assert_eq!(k.count, 4);
    assert_eq!(k.sum, (15_000 + 25_000 - 10_000 + 2_500) as i128);
    assert_eq!(k.min, -10_000);
    assert_eq!(k.max, 25_000);
    let o = m.get(b"other").unwrap();
    assert_eq!(o.count, 1);
    assert_eq!(o.sum, 70_000);
}

#[test]
fn invalid_utf8_key_collapses_to_the_empty_key() {
    let data = b"\xff\xfe;1\nA;2\n".to_vec();
    let m = process(&data, 1);
    assert_eq!(m.len(), 2);
    expect(&m, b"", units(1), units(1), units(1), 1);
    expect(&m, b"A", units(2), units(2), units(2), 1);
}

#[test]
fn aggregates_combine_pointwise() {
    let mut a = Aggregate::from_value(units(3));
    a.observe(units(-2));
    let b = Aggregate::from_value(units(10));
    let c = a.combine(&b);
    assert_eq!(c.min, units(-2));
    assert_eq!(c.max, units(10));
    assert_eq!(c.sum, units(11) as i128);
    assert_eq!(c.count, 3);
    let d = b.combine(&a);
    assert_eq!(d.min, c.min);
    assert_eq!(d.max, c.max);
    assert_eq!(d.sum, c.sum);
    assert_eq!(d.count, c.count);
}

#[test]
fn run_all_yields_one_partial_per_region_in_order() {
    let data = b"A;1\nB;2\nC;3\nD;4\n".to_vec();
    let regions = split_regions(&data, 4);
    let partials = run_all(&data, &regions);
    assert_eq!(partials.len(), regions.len());
    let mut total: u128 = 0;
    for p in partials.iter() {
        total += p.len() as u128;
    }
    // the four keys are spread over the regions, none lost or doubled
    assert_eq!(total, 4);
    let m = reduce(&partials);
    assert_eq!(m.len(), 4);
    expect(&m, b"D", units(4), units(4), units(4), 1);
}

#[test]
fn reducing_no_partial_maps_yields_the_empty_map() {
    let partials: Vec<ResultMap> = Vec::new();
    let m = reduce(&partials);
    assert_eq!(m.len(), 0);
}

#[test]
fn keys_and_aggregates_can_be_walked_in_insertion_order() {
    let data = b"B;2\nA;1\nB;4\n".to_vec();
    let m = process(&data, 1);
    assert_eq!(m.len(), 2);
    let mut seen: Vec<(Vec<u8>, u128)> = Vec::new();
    for i in 0..m.len() {
        let k = m.key_at(i).clone();
        let a = m.agg_at(i);
        seen.push((k, a.count));
    }
    seen.sort();
    assert_eq!(seen, vec![(b"A".to_vec(), 1u128), (b"B".to_vec(), 2u128)]);
}

#[test]
fn trailing_line_without_newline_still_counts() {
    let data = b"A;1\nA;2".to_vec();
    let m = process(&data, 2);
    expect(&m, b"A", units(1), units(2), units(3), 2);
}

//! The record model: which lines of a byte region are well-formed
//! `key;value` records, and what key and fixed-point value each one
//! carries. The executable value parser is proved against the spec.
//!
//! A value is well formed when it is an optional sign, one or more
//! decimal digits, and optionally a point followed by one to four
//! fractional digits, and its magnitude does not exceed `RAW_MAX`
//! fixed-point units. Every other line is malformed and skipped.
use vstd::prelude::*;
use vstd::slice::slice_subrange;
use crate::aggregate::RAW_MAX;
use crate::aggregate::SCALE;
use crate::text::FIELD_SEP;
use crate::text::LINE_BREAK;
use crate::text::find_byte;
use crate::text::find_byte_within;
use crate::text::lemma_find_byte;
use crate::text::lemma_find_byte_is;
use crate::text::norm_key;

verus! {

pub const DECIMAL_POINT: u8 = 46;

pub const MINUS_SIGN: u8 = 45;

pub const PLUS_SIGN: u8 = 43;

/// Largest integer part a value may have, in whole units.
pub const INT_PART_MAX: u64 = 10_000_000_000_000;

pub open spec fn is_digit(b: u8) -> bool {
    48 <= b <= 57
}

pub open spec fn all_digits(s: Seq<u8>) -> bool {
    forall|j: int| 0 <= j < s.len() ==> is_digit(#[trigger] s[j])
}

/// Numeric value of a digit string, most significant digit first.
pub open spec fn digits_val(s: Seq<u8>) -> int
    recommends
        all_digits(s),
    decreases s.len(),
{
    if s.len() == 0 {
        0
    } else {
        digits_val(s.drop_last()) * 10 + (s.last() - 48)
    }
}

/// Scale factor that brings a fraction of `n` digits to four fractional
/// digits.
pub open spec fn frac_scale(n: int) -> int {
    if n == 1 {
        1000
    } else if n == 2 {
        100
    } else if n == 3 {
        10
    } else {
        1
    }
}

/// Magnitude, in fixed-point units, of an unsigned value text, or `None`
/// when the text is not a well-formed unsigned decimal.
pub open spec fn unsigned_raw(t: Seq<u8>) -> Option<int> {
    match find_byte(t, DECIMAL_POINT) {
        None => if t.len() >= 1 && all_digits(t) {
            Some(digits_val(t) * SCALE)
        } else {
            None
        },
        Some(j) => if 0 <= j < t.len() {
            let ip = t.subrange(0, j);
            let fp = t.subrange(j + 1, t.len() as int);
            if ip.len() >= 1 && 1 <= fp.len() <= 4 && all_digits(ip) && all_digits(fp) {
                Some(digits_val(ip) * SCALE + digits_val(fp) * frac_scale(fp.len() as int))
            } else {
                None
            }
        } else {
            None
        },
    }
}

/// The value of a value text in fixed-point units, or `None` when the
/// text is malformed or out of range.
pub open spec fn parse_value(s: Seq<u8>) -> Option<i64> {
    let neg = s.len() >= 1 && s[0] == MINUS_SIGN;
    let t = if s.len() >= 1 && (s[0] == MINUS_SIGN || s[0] == PLUS_SIGN) {
        s.subrange(1, s.len() as int)
    } else {
        s
    };
    match unsigned_raw(t) {
        None => None,
        Some(m) => if m <= RAW_MAX as int {
            Some(
                if neg {
                    (-m) as i64
                } else {
                    m as i64
                },
            )
        } else {
            None
        },
    }
}

/// A record: the (normalized) key bytes and the value in fixed-point
/// units.
pub type Rec = (Seq<u8>, int);

/// The record carried by one line, if any: the line must contain the
/// field separator, and the bytes after its first occurrence must be a
/// well-formed value. The key is the bytes before it, decoded leniently.
pub open spec fn line_record(line: Seq<u8>) -> Option<Rec> {
    match find_byte(line, FIELD_SEP) {
        None => None,
        Some(j) => if 0 <= j < line.len() {
            match parse_value(line.subrange(j + 1, line.len() as int)) {
                None => None,
                Some(v) => Some((norm_key(line.subrange(0, j)), v as int)),
            }
        } else {
            None
        },
    }
}

pub open spec fn rec_seq(r: Option<Rec>) -> Seq<Rec> {
    match r {
        None => Seq::empty(),
        Some(x) => seq![x],
    }
}

/// The records of a byte region, in order: the region is split at line
/// breaks, and each fragment contributes its record, if it has one.
pub open spec fn records_of(s: Seq<u8>) -> Seq<Rec>
    decreases s.len(),
{
    match find_byte(s, LINE_BREAK) {
        None => rec_seq(line_record(s)),
        Some(i) => if 0 <= i < s.len() {
            rec_seq(line_record(s.subrange(0, i))) + records_of(
                s.subrange(i + 1, s.len() as int),
            )
        } else {
            rec_seq(line_record(s))
        },
    }
}

/// Regions split at a line boundary scan independently: when the first
/// part is empty or ends on a line break, the records of the whole are
/// the records of the parts, in order. No record is ever split between
/// two line-aligned regions.
pub proof fn lemma_records_append(a: Seq<u8>, b: Seq<u8>)
    requires
        a.len() == 0 || a.last() == LINE_BREAK,
    ensures
        records_of(a + b) == records_of(a) + records_of(b),
    decreases a.len(),
{
    if a.len() == 0 {
        assert(a + b =~= b);
        assert(records_of(a) =~= Seq::<Rec>::empty());
        assert(records_of(a) + records_of(b) =~= records_of(b));
    } else {
        lemma_find_byte(a, LINE_BREAK);
        if find_byte(a, LINE_BREAK) is None {
            assert(a[a.len() - 1] == LINE_BREAK);
            assert(false);
        }
        let i = find_byte(a, LINE_BREAK)->Some_0;
        assert((a + b)[i] == a[i]);
        assert forall|j: int| 0 <= j < i implies (a + b)[j] != LINE_BREAK by {
            assert((a + b)[j] == a[j]);
        }
        lemma_find_byte_is(a + b, LINE_BREAK, i);
        assert((a + b).subrange(0, i) =~= a.subrange(0, i));
        let atail = a.subrange(i + 1, a.len() as int);
        assert((a + b).subrange(i + 1, (a + b).len() as int) =~= atail + b);
        if atail.len() > 0 {
            assert(atail.last() == a.last());
        }
        lemma_records_append(atail, b);
        assert(records_of(a + b) == rec_seq(line_record(a.subrange(0, i))) + (records_of(atail)
            + records_of(b)));
        assert(records_of(a) == rec_seq(line_record(a.subrange(0, i))) + records_of(atail));
        assert(records_of(a) + records_of(b) =~= rec_seq(line_record(a.subrange(0, i))) + (
        records_of(atail) + records_of(b)));
    }
}

/// A region has at most one record per line, hence no more records than
/// bytes plus one.
pub proof fn lemma_records_len(s: Seq<u8>)
    ensures
        records_of(s).len() <= s.len() + 1,
    decreases s.len(),
{
    lemma_find_byte(s, LINE_BREAK);
    match find_byte(s, LINE_BREAK) {
        None => {},
        Some(i) => {
            lemma_records_len(s.subrange(i + 1, s.len() as int));
        },
    }
}

proof fn lemma_digits_val_nonneg(s: Seq<u8>)
    requires
        all_digits(s),
    ensures
        digits_val(s) >= 0,
    decreases s.len(),
{
    if s.len() > 0 {
        assert forall|j: int| 0 <= j < s.drop_last().len() implies is_digit(
            #[trigger] s.drop_last()[j],
        ) by {
            assert(s.drop_last()[j] == s[j]);
        }
        lemma_digits_val_nonneg(s.drop_last());
    }
}

/// Appending digits to a digit string never shrinks its value.
proof fn lemma_digits_val_prefix(s: Seq<u8>, k: int)
    requires
        all_digits(s),
        0 <= k <= s.len(),
    ensures
        digits_val(s.subrange(0, k)) <= digits_val(s),
    decreases s.len() - k,
{
    if k < s.len() {
        let p = s.subrange(0, k + 1);
        assert(p.drop_last() =~= s.subrange(0, k));
        assert(all_digits(p));
        lemma_digits_val_nonneg(p.drop_last());
        assert(digits_val(p) == digits_val(s.subrange(0, k)) * 10 + (s[k] - 48));
        assert(digits_val(s.subrange(0, k)) <= digits_val(p)) by {
            lemma_digits_val_nonneg(s.subrange(0, k));
        }
        lemma_digits_val_prefix(s, k + 1);
        assert(s.subrange(0, s.len() as int) =~= s);
    } else {
        assert(s.subrange(0, k) =~= s);
    }
}

/// Value of a digit slice, stopping with `None` as soon as the value
/// exceeds `INT_PART_MAX`.
fn digits_value_capped(s: &[u8]) -> (r: Option<u64>)
    requires
        all_digits(s@),
    ensures
        match r {
            Some(v) => v == digits_val(s@) && v <= INT_PART_MAX,
            None => digits_val(s@) > INT_PART_MAX,
        },
{
    let n = s.len();
    let mut acc: u64 = 0;
    let mut i: usize = 0;
    while i < n
        invariant
            i <= n,
            n == s@.len(),
            all_digits(s@),
            acc == digits_val(s@.subrange(0, i as int)),
            acc <= INT_PART_MAX,
        decreases n - i,
    {
        let d = s[i];
        proof {
            assert(is_digit(s@[i as int]));
            assert(s@.subrange(0, i + 1).drop_last() =~= s@.subrange(0, i as int));
        }
        let next: u64 = acc * 10 + (d - 48) as u64;
        if next > INT_PART_MAX {
            proof {
                lemma_digits_val_prefix(s@, i + 1);
            }
            return None;
        }
        acc = next;
        i = i + 1;
    }
    proof {
        assert(s@.subrange(0, n as int) =~= s@);
    }
    Some(acc)
}

/// Checks that every byte of a slice is a decimal digit.
fn check_all_digits(s: &[u8]) -> (r: bool)
    ensures
        r == all_digits(s@),
{
    let n = s.len();
    let mut i: usize = 0;
    while i < n
        invariant
            i <= n,
            n == s@.len(),
            forall|j: int| 0 <= j < i ==> is_digit(#[trigger] s@[j]),
        decreases n - i,
    {
        let b = s[i];
        if b < 48 || b > 57 {
            return false;
        }
        i = i + 1;
    }
    true
}

/// Parses a value text into fixed-point units, exactly as the record
/// model does.
pub fn parse_measurement(s: &[u8]) -> (r: Option<i64>)
    ensures
        r == parse_value(s@),
        r matches Some(v) ==> -RAW_MAX <= v <= RAW_MAX,
{
    let n = s.len();
    let mut neg = false;
    let mut start: usize = 0;
    if n >= 1 && (s[0] == MINUS_SIGN || s[0] == PLUS_SIGN) {
        neg = s[0] == MINUS_SIGN;
        start = 1;
    }
    let t = slice_subrange(s, start, n);
    let ghost tv = t@;
    proof {
        if start == 0 {
            assert(tv =~= s@);
        }
    }
    let m = match find_byte_within(t, 0, t.len(), DECIMAL_POINT) {
        None => {
            proof {
                assert(tv.subrange(0, tv.len() as int) =~= tv);
            }
            if t.len() == 0 || !check_all_digits(t) {
                return None;
            }
            match digits_value_capped(t) {
                None => {
                    proof {
                        lemma_int_part_large(digits_val(tv));
                    }
                    return None;
                },
                Some(v) => v * (SCALE as u64),
            }
        },
        Some(j) => {
            proof {
                assert(tv.subrange(0, tv.len() as int) =~= tv);
            }
            let ip = slice_subrange(t, 0, j);
            let fp = slice_subrange(t, j + 1, t.len());
            if ip.len() == 0 || fp.len() == 0 || fp.len() > 4 || !check_all_digits(ip)
                || !check_all_digits(fp) {
                return None;
            }
            let fs: u64 = if fp.len() == 1 {
                1000
            } else if fp.len() == 2 {
                100
            } else if fp.len() == 3 {
                10
            } else {
                1
            };
            match digits_value_capped(ip) {
                None => {
                    proof {
                        lemma_digits_val_nonneg(fp@);
                        lemma_frac_bound(fp@);
                        lemma_int_part_large_frac(digits_val(ip@), digits_val(fp@) * frac_scale(
                            fp@.len() as int,
                        ));
                    }
                    return None;
                },
                Some(v) => {
                    proof {
                        lemma_frac_bound(fp@);
                        lemma_digits_val_nonneg(fp@);
                    }
                    match digits_value_capped(fp) {
                        None => {
                            proof {
                                assert(false);
                            }
                            return None;
                        },
                        Some(f) => v * (SCALE as u64) + f * fs,
                    }
                },
            }
        },
    };
    if m > RAW_MAX as u64 {
        return None;
    }
    if neg {
        Some(-(m as i64))
    } else {
        Some(m as i64)
    }
}

/// A fraction of at most four digits is below ten thousand, so its
/// scaled value stays below one whole unit.
proof fn lemma_frac_bound(fp: Seq<u8>)
    requires
        all_digits(fp),
        1 <= fp.len() <= 4,
    ensures
        0 <= digits_val(fp) * frac_scale(fp.len() as int) < SCALE as int,
        digits_val(fp) <= INT_PART_MAX,
    decreases fp.len(),
{
    lemma_digits_val_nonneg(fp);
    if fp.len() == 1 {
        assert(digits_val(fp.drop_last()) == 0);
        assert(is_digit(fp[0]));
        assert(digits_val(fp) <= 9);
    } else {
        let dl = fp.drop_last();
        assert forall|j: int| 0 <= j < dl.len() implies is_digit(#[trigger] dl[j]) by {
            assert(dl[j] == fp[j]);
        }
        lemma_frac_bound(dl);
        assert(is_digit(fp.last()));
        let d = fp.last() - 48;
        assert(0 <= d <= 9);
        assert(digits_val(fp) == digits_val(dl) * 10 + d);
        if fp.len() == 2 {
            assert(digits_val(dl) * 1000 < 10000);
            assert(digits_val(dl) <= 9);
            assert(digits_val(fp) * 100 <= (9 * 10 + 9) * 100);
        } else if fp.len() == 3 {
            assert(digits_val(dl) * 100 < 10000);
            assert(digits_val(dl) <= 99);
            assert(digits_val(fp) * 10 <= (99 * 10 + 9) * 10);
        } else {
            assert(digits_val(dl) * 10 < 10000);
            assert(digits_val(dl) <= 999);
            assert(digits_val(fp) * 1 <= 999 * 10 + 9);
        }
    }
}

/// An integer part beyond `INT_PART_MAX` puts the whole value beyond
/// `RAW_MAX`.
proof fn lemma_int_part_large(iv: int)
    requires
        iv > INT_PART_MAX,
    ensures
        iv * SCALE as int > RAW_MAX as int,
{
    assert(iv * SCALE as int >= (INT_PART_MAX + 1) * SCALE as int) by (nonlinear_arith)
        requires
            iv >= INT_PART_MAX + 1,
            SCALE > 0,
    ;
}

proof fn lemma_int_part_large_frac(iv: int, fr: int)
    requires
        iv > INT_PART_MAX,
        fr >= 0,
    ensures
        iv * SCALE as int + fr > RAW_MAX as int,
{
    lemma_int_part_large(iv);
}

} // verus!

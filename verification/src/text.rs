//! Byte-level text utilities shared by the splitter and the scanner:
//! finding the first occurrence of a byte, validating UTF-8, and the
//! lenient key decoding rule (a key that is not valid UTF-8 is replaced
//! by the empty key rather than failing the scan).
use vstd::prelude::*;
use vstd::utf8::valid_utf8;
use vstd::utf8::valid_first_scalar;
use vstd::utf8::length_of_first_scalar;
use vstd::utf8::pop_first_scalar;
use vstd::slice::slice_to_vec;

verus! {

/// The line delimiter.
pub const LINE_BREAK: u8 = 10;

/// The byte separating the key from the value on a line.
pub const FIELD_SEP: u8 = 59;

/// Index of the first occurrence of `b` in `s`, if any.
pub open spec fn find_byte(s: Seq<u8>, b: u8) -> Option<int>
    decreases s.len(),
{
    if s.len() == 0 {
        None
    } else if s[0] == b {
        Some(0)
    } else {
        match find_byte(s.subrange(1, s.len() as int), b) {
            None => None,
            Some(i) => Some(i + 1),
        }
    }
}

/// `find_byte` returns the first occurrence: the byte is there, and no
/// earlier position holds it.
pub proof fn lemma_find_byte(s: Seq<u8>, b: u8)
    ensures
        match find_byte(s, b) {
            None => forall|j: int| 0 <= j < s.len() ==> s[j] != b,
            Some(i) => 0 <= i < s.len() && s[i] == b && forall|j: int| 0 <= j < i ==> s[j] != b,
        },
    decreases s.len(),
{
    if s.len() > 0 && s[0] != b {
        let t = s.subrange(1, s.len() as int);
        lemma_find_byte(t, b);
        assert forall|j: int| 1 <= j < s.len() implies s[j] == t[j - 1] by {}
    }
}

/// Conversely, a position that holds `b` with no earlier occurrence is
/// what `find_byte` returns.
pub proof fn lemma_find_byte_is(s: Seq<u8>, b: u8, i: int)
    requires
        0 <= i < s.len(),
        s[i] == b,
        forall|j: int| 0 <= j < i ==> s[j] != b,
    ensures
        find_byte(s, b) == Some(i),
    decreases s.len(),
{
    if i > 0 {
        let t = s.subrange(1, s.len() as int);
        assert forall|j: int| 0 <= j < i - 1 implies t[j] != b by {
            assert(t[j] == s[j + 1]);
        }
        assert(t[i - 1] == s[i]);
        lemma_find_byte_is(t, b, i - 1);
    }
}

/// When no position holds `b`, `find_byte` finds nothing.
pub proof fn lemma_find_byte_none(s: Seq<u8>, b: u8)
    requires
        forall|j: int| 0 <= j < s.len() ==> s[j] != b,
    ensures
        find_byte(s, b) == None::<int>,
{
    lemma_find_byte(s, b);
    if find_byte(s, b) is Some {
        let i = find_byte(s, b)->Some_0;
        assert(s[i] == b);
    }
}

/// First occurrence of `target` in `buffer[from..to]`, as an absolute
/// position.
pub fn find_byte_within(buffer: &[u8], from: usize, to: usize, target: u8) -> (r: Option<usize>)
    requires
        from <= to <= buffer@.len(),
    ensures
        match r {
            None => find_byte(buffer@.subrange(from as int, to as int), target) == None::<int>,
            Some(p) => from <= p < to && buffer@[p as int] == target && find_byte(
                buffer@.subrange(from as int, to as int),
                target,
            ) == Some(p - from),
        },
{
    let ghost sub = buffer@.subrange(from as int, to as int);
    let mut j: usize = from;
    while j < to
        invariant
            from <= j <= to <= buffer@.len(),
            sub == buffer@.subrange(from as int, to as int),
            forall|m: int| from <= m < j ==> buffer@[m] != target,
        decreases to - j,
    {
        if buffer[j] == target {
            proof {
                assert(sub[j - from] == buffer@[j as int]);
                assert forall|m: int| 0 <= m < j - from implies sub[m] != target by {
                    assert(sub[m] == buffer@[m + from]);
                }
                lemma_find_byte_is(sub, target, j - from);
            }
            return Some(j);
        }
        j = j + 1;
    }
    proof {
        assert forall|m: int| 0 <= m < sub.len() implies sub[m] != target by {
            assert(sub[m] == buffer@[m + from]);
        }
        lemma_find_byte_none(sub, target);
    }
    None
}

/// The lenient key decoding rule: a key that is valid UTF-8 stands as it
/// is; any other key is replaced by the empty key.
pub open spec fn norm_key(k: Seq<u8>) -> Seq<u8> {
    if valid_utf8(k) {
        k
    } else {
        Seq::empty()
    }
}

/// Peeling one well-formed scalar off the front of a byte sequence keeps
/// UTF-8 validity unchanged.
proof fn lemma_utf8_peel(t: Seq<u8>, w: int)
    requires
        valid_first_scalar(t),
        length_of_first_scalar(t) == w,
    ensures
        valid_utf8(t) == valid_utf8(t.subrange(w, t.len() as int)),
{
    assert(pop_first_scalar(t) == t.subrange(w, t.len() as int));
}

/// Checks whether a byte sequence is valid UTF-8, against vstd's
/// definition of UTF-8 validity.
pub fn is_valid_utf8(s: &[u8]) -> (r: bool)
    ensures
        r == valid_utf8(s@),
{
    let n = s.len();
    let mut i: usize = 0;
    proof {
        assert(s@.subrange(0, n as int) =~= s@);
    }
    while i < n
        invariant
            i <= n,
            n == s@.len(),
            valid_utf8(s@) == valid_utf8(s@.subrange(i as int, n as int)),
        decreases n - i,
    {
        let ghost t = s@.subrange(i as int, n as int);
        let b0 = s[i];
        proof {
            assert(t[0] == s@[i as int]);
        }
        if b0 < 0x80 {
            proof {
                assert(b0 & 0x7f <= 0x7f) by (bit_vector);
                lemma_utf8_peel(t, 1);
                assert(t.subrange(1, t.len() as int) =~= s@.subrange(i + 1, n as int));
            }
            i = i + 1;
        } else if b0 < 0xc0 {
            proof {
                assert(!valid_first_scalar(t));
            }
            return false;
        } else if b0 < 0xe0 {
            if n - i < 2 {
                proof {
                    assert(!valid_first_scalar(t));
                }
                return false;
            }
            let b1 = s[i + 1];
            proof {
                assert(t[1] == s@[i + 1]);
            }
            let cp: u32 = (((b0 & 0x1f) as u32) << 6u32) | ((b1 & 0x3f) as u32);
            if 0x80 <= b1 && b1 <= 0xbf && cp >= 0x80 && !(0xd800 <= cp && cp <= 0xdfff) {
                proof {
                    lemma_utf8_peel(t, 2);
                    assert(t.subrange(2, t.len() as int) =~= s@.subrange(i + 2, n as int));
                }
                i = i + 2;
            } else {
                proof {
                    assert(!valid_first_scalar(t));
                }
                return false;
            }
        } else if b0 < 0xf0 {
            if n - i < 3 {
                proof {
                    assert(!valid_first_scalar(t));
                }
                return false;
            }
            let b1 = s[i + 1];
            let b2 = s[i + 2];
            proof {
                assert(t[1] == s@[i + 1]);
                assert(t[2] == s@[i + 2]);
            }
            let cp: u32 = (((b0 & 0x0f) as u32) << 12u32) | (((b1 & 0x3f) as u32) << 6u32) | ((b2
                & 0x3f) as u32);
            if 0x80 <= b1 && b1 <= 0xbf && 0x80 <= b2 && b2 <= 0xbf && cp >= 0x800 && !(0xd800
                <= cp && cp <= 0xdfff) {
                proof {
                    lemma_utf8_peel(t, 3);
                    assert(t.subrange(3, t.len() as int) =~= s@.subrange(i + 3, n as int));
                }
                i = i + 3;
            } else {
                proof {
                    assert(!valid_first_scalar(t));
                }
                return false;
            }
        } else if b0 < 0xf8 {
            if n - i < 4 {
                proof {
                    assert(!valid_first_scalar(t));
                }
                return false;
            }
            let b1 = s[i + 1];
            let b2 = s[i + 2];
            let b3 = s[i + 3];
            proof {
                assert(t[1] == s@[i + 1]);
                assert(t[2] == s@[i + 2]);
                assert(t[3] == s@[i + 3]);
            }
            let cp: u32 = (((b0 & 0x07) as u32) << 18u32) | (((b1 & 0x3f) as u32) << 12u32) | (((b2
                & 0x3f) as u32) << 6u32) | ((b3 & 0x3f) as u32);
            if 0x80 <= b1 && b1 <= 0xbf && 0x80 <= b2 && b2 <= 0xbf && 0x80 <= b3 && b3 <= 0xbf
                && 0x10000 <= cp && cp <= 0x10ffff && !(0xd800 <= cp && cp <= 0xdfff) {
                proof {
                    lemma_utf8_peel(t, 4);
                    assert(t.subrange(4, t.len() as int) =~= s@.subrange(i + 4, n as int));
                }
                i = i + 4;
            } else {
                proof {
                    assert(!valid_first_scalar(t));
                }
                return false;
            }
        } else {
            proof {
                assert(!valid_first_scalar(t));
            }
            return false;
        }
    }
    proof {
        assert(s@.subrange(n as int, n as int).len() == 0);
    }
    true
}

/// Applies the lenient key decoding rule to raw key bytes.
pub fn normalize_key(k: &[u8]) -> (r: Vec<u8>)
    ensures
        r@ == norm_key(k@),
{
    if is_valid_utf8(k) {
        slice_to_vec(k)
    } else {
        Vec::new()
    }
}

} // verus!

//! The region splitter: divides `[0, len)` into a requested number of
//! line-aligned byte ranges. Nominal equal-width boundaries are probed
//! forward to the byte just past the next line break (or the buffer
//! end), so no line is ever split between two regions.
use vstd::prelude::*;
use vstd::arithmetic::div_mod::lemma_fundamental_div_mod;
use crate::text::LINE_BREAK;
use crate::text::find_byte;
use crate::text::find_byte_within;
use crate::text::lemma_find_byte;

verus! {

/// A half-open, line-aligned byte range of the shared buffer.
#[derive(Clone, Copy, PartialEq, Eq, Structural, Debug)]
pub struct Region {
    pub start: usize,
    pub end: usize,
}

/// The true boundary for a nominal offset: one past the first line
/// break at or after it, or the buffer end when no line break follows.
pub open spec fn chunk_boundary(s: Seq<u8>, off: int) -> int
    recommends
        0 <= off <= s.len(),
{
    match find_byte(s.subrange(off, s.len() as int), LINE_BREAK) {
        None => s.len() as int,
        Some(p) => off + p + 1,
    }
}

/// A boundary lies between its offset and the buffer end, and all but
/// the collapsed boundary sit just past a line break.
pub proof fn lemma_boundary_range(s: Seq<u8>, off: int)
    requires
        0 <= off <= s.len(),
    ensures
        off <= chunk_boundary(s, off) <= s.len(),
        chunk_boundary(s, off) == s.len() || (0 < chunk_boundary(s, off) && s[chunk_boundary(
            s,
            off,
        ) - 1] == LINE_BREAK),
{
    let sub = s.subrange(off, s.len() as int);
    lemma_find_byte(sub, LINE_BREAK);
    match find_byte(sub, LINE_BREAK) {
        None => {},
        Some(p) => {
            assert(sub[p] == s[off + p]);
        },
    }
}

/// Boundaries grow with their offsets.
pub proof fn lemma_boundary_monotone(s: Seq<u8>, off1: int, off2: int)
    requires
        0 <= off1 <= off2 <= s.len(),
    ensures
        chunk_boundary(s, off1) <= chunk_boundary(s, off2),
{
    let sub1 = s.subrange(off1, s.len() as int);
    let sub2 = s.subrange(off2, s.len() as int);
    lemma_find_byte(sub1, LINE_BREAK);
    lemma_find_byte(sub2, LINE_BREAK);
    lemma_boundary_range(s, off1);
    lemma_boundary_range(s, off2);
    match find_byte(sub2, LINE_BREAK) {
        None => {},
        Some(p2) => {
            let q = off2 + p2;
            assert(sub2[p2] == s[q]);
            match find_byte(sub1, LINE_BREAK) {
                None => {
                    assert(sub1[q - off1] == s[q]);
                    assert(false);
                },
                Some(p1) => {
                    if p1 > q - off1 {
                        assert(sub1[q - off1] == s[q]);
                        assert(false);
                    }
                },
            }
        },
    }
}

/// The boundary for one nominal offset.
fn next_boundary(buffer: &[u8], off: usize) -> (b: usize)
    requires
        off <= buffer@.len(),
    ensures
        b as int == chunk_boundary(buffer@, off as int),
        off <= b <= buffer@.len(),
{
    proof {
        lemma_boundary_range(buffer@, off as int);
    }
    match find_byte_within(buffer, off, buffer.len(), LINE_BREAK) {
        Some(p) => p + 1,
        None => buffer.len(),
    }
}

/// Splits `[0, buffer.len())` into `desired` contiguous, line-aligned
/// regions: the first starts at zero, the last ends at the buffer end,
/// each internal boundary is the probed boundary of its nominal offset,
/// and neighbouring regions share their boundary, so the regions cover
/// the buffer exactly once.
#[verifier::loop_isolation(false)]
pub fn split_regions(buffer: &[u8], desired: usize) -> (regions: Vec<Region>)
    requires
        1 <= desired,
    ensures
        regions@.len() == desired as int,
        regions@[0].start == 0,
        regions@[desired - 1].end == buffer@.len(),
        forall|i: int|
            0 <= i < desired ==> (#[trigger] regions@[i]).start <= regions@[i].end
                <= buffer@.len(),
        forall|i: int|
            0 <= i < desired - 1 ==> (#[trigger] regions@[i]).end == regions@[i + 1].start,
        forall|i: int|
            1 <= i < desired ==> (#[trigger] regions@[i]).start as int == chunk_boundary(
                buffer@,
                i * (buffer@.len() as int / desired as int),
            ),
        forall|i: int|
            1 <= i < desired ==> (#[trigger] regions@[i]).start == buffer@.len() || (0
                < regions@[i].start && buffer@[regions@[i].start - 1] == LINE_BREAK),
{
    let len = buffer.len();
    let chunk = len / desired;
    let mut bounds: Vec<usize> = Vec::new();
    bounds.push(0);
    let mut i: usize = 1;
    proof {
        lemma_fundamental_div_mod(len as int, desired as int);
    }
    while i < desired
        invariant
            1 <= i <= desired,
            bounds@.len() == i,
            bounds@[0] == 0,
            forall|j: int|
                1 <= j < i ==> bounds@[j] as int == chunk_boundary(
                    buffer@,
                    j * (chunk as int),
                ),
            forall|j: int| 0 <= j < i ==> #[trigger] bounds@[j] <= len,
            forall|j: int| 0 <= j < i - 1 ==> #[trigger] bounds@[j] <= bounds@[j + 1],
        decreases desired - i,
    {
        proof {
            assert(i as int * chunk as int <= desired as int * chunk as int)
                by (nonlinear_arith)
                requires
                    i <= desired,
                    chunk >= 0,
            ;
            assert((i - 1) as int * chunk as int + chunk as int == i as int * chunk as int)
                by (nonlinear_arith);
            assert((i - 1) as int * chunk as int >= 0) by (nonlinear_arith)
                requires
                    i >= 1,
                    chunk >= 0,
            ;
        }
        let off = i * chunk;
        let b = next_boundary(buffer, off);
        proof {
            if i >= 2 {
                lemma_boundary_monotone(
                    buffer@,
                    (i - 1) as int * chunk as int,
                    i as int * chunk as int,
                );
            } else {
                lemma_boundary_range(buffer@, chunk as int);
            }
        }
        bounds.push(b);
        i = i + 1;
    }
    let mut regions: Vec<Region> = Vec::new();
    let mut j: usize = 0;
    while j < desired
        invariant
            0 <= j <= desired,
            regions@.len() == j,
            forall|t: int|
                0 <= t < j ==> (#[trigger] regions@[t]).start == bounds@[t] && regions@[t].end
                    == (if t < desired - 1 {
                    bounds@[t + 1] as int
                } else {
                    len as int
                }),
        decreases desired - j,
    {
        let start = bounds[j];
        let end = if j + 1 < desired {
            bounds[j + 1]
        } else {
            len
        };
        proof {
            if j + 1 >= desired {
                assert(bounds@[j as int] <= len);
            }
        }
        regions.push(Region { start, end });
        j = j + 1;
    }
    proof {
        assert forall|i0: int| 1 <= i0 < desired implies (#[trigger] regions@[i0]).start
            == buffer@.len() || (0 < regions@[i0].start && buffer@[regions@[i0].start - 1]
            == LINE_BREAK) by {
            assert(i0 * (chunk as int) >= 0) by (nonlinear_arith)
                requires
                    i0 >= 1,
                    chunk >= 0,
            ;
            assert(i0 * (chunk as int) <= desired as int * (chunk as int)) by (nonlinear_arith)
                requires
                    i0 <= desired,
                    chunk >= 0,
            ;
            lemma_boundary_range(buffer@, i0 * (chunk as int));
        }
    }
    regions
}

} // verus!

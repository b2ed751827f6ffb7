//! The edge map: from a signature to the three vertices of its hyperedge.
//!
//! A chunk's vertices are laid out over `L + 2` consecutive segments of
//! equal size, with `L = 128`.  A signature picks a first segment from its
//! `h0` and one vertex inside each of three consecutive segments, so the
//! three endpoints of an edge always lie in three distinct segments and are
//! therefore distinct.

use vstd::prelude::*;

verus! {

use vstd::arithmetic::power2::{pow2, lemma2_to64, lemma2_to64_rest};
use vstd::arithmetic::div_mod::lemma_multiply_divide_lt;
use vstd::arithmetic::mul::{lemma_mul_inequality, lemma_mul_strict_inequality};
use vstd::bits::lemma_u64_shr_is_div;

/// Number of segments a first segment is drawn from.
pub const L_SEGMENTS: usize = 128;

/// Total number of segments in a chunk: `L + 2`.
pub const NUM_SEGMENTS: usize = 130;

/// The first segment of the edge of a signature: bits 16.. of `h0`, modulo `L`.
pub open spec fn spec_first_seg(h0: u64) -> int {
    ((h0 >> 16u64) & 127u64) as int
}

/// First endpoint: a vertex of segment `first_seg`.
pub open spec fn spec_edge0(h0: u64, seg: int) -> int {
    (((h0 >> 32u64) as int) * seg) / 0x100000000 + spec_first_seg(h0) * seg
}

/// Second endpoint: a vertex of segment `first_seg + 1`.
pub open spec fn spec_edge1(h0: u64, h1: u64, seg: int) -> int {
    (((h1 & 0xFFFF_FFFFu64) as int) * seg) / 0x100000000 + (spec_first_seg(h0) + 1) * seg
}

/// Third endpoint: a vertex of segment `first_seg + 2`.
pub open spec fn spec_edge2(h0: u64, h1: u64, seg: int) -> int {
    (((h1 >> 32u64) as int) * seg) / 0x100000000 + (spec_first_seg(h0) + 2) * seg
}

/// Whether `v` is an endpoint of the edge of `(h0, h1)`.
pub open spec fn spec_on_edge(h0: u64, h1: u64, seg: int, v: int) -> bool {
    v == spec_edge0(h0, seg) || v == spec_edge1(h0, h1, seg) || v == spec_edge2(h0, h1, seg)
}

/// The three endpoints are strictly increasing and fit in the chunk.
pub proof fn lemma_edge_shape(h0: u64, h1: u64, seg: int)
    requires
        1 <= seg,
    ensures
        0 <= spec_edge0(h0, seg),
        spec_edge0(h0, seg) < spec_edge1(h0, h1, seg),
        spec_edge1(h0, h1, seg) < spec_edge2(h0, h1, seg),
        spec_edge2(h0, h1, seg) < 130 * seg,
{
    let fs = spec_first_seg(h0);
    assert((h0 >> 16u64) & 127u64 < 128u64) by (bit_vector);
    assert(h0 >> 32u64 < 0x100000000u64) by (bit_vector);
    assert(h1 & 0xFFFF_FFFFu64 < 0x100000000u64) by (bit_vector);
    assert(h1 >> 32u64 < 0x100000000u64) by (bit_vector);
    let a0 = (h0 >> 32u64) as int;
    let a1 = (h1 & 0xFFFF_FFFFu64) as int;
    let a2 = (h1 >> 32u64) as int;
    lemma_fraction_bound(a0, seg);
    lemma_fraction_bound(a1, seg);
    lemma_fraction_bound(a2, seg);
    assert(fs * seg >= 0) by (nonlinear_arith)
        requires
            fs >= 0 && seg >= 1,
    ;
    assert((fs + 1) * seg == fs * seg + seg) by (nonlinear_arith);
    assert((fs + 2) * seg == fs * seg + 2 * seg) by (nonlinear_arith);
    assert((fs + 3) * seg == fs * seg + 3 * seg) by (nonlinear_arith);
    lemma_mul_inequality(fs + 3, 130, seg);
}

/// A 32-bit fraction of a segment lands inside the segment.
proof fn lemma_fraction_bound(a: int, seg: int)
    requires
        0 <= a < 0x100000000,
        1 <= seg,
    ensures
        0 <= (a * seg) / 0x100000000 < seg,
{
    lemma_mul_strict_inequality(a, 0x100000000, seg);
    assert(0x100000000 * seg == seg * 0x100000000) by (nonlinear_arith);
    assert(a * seg >= 0) by (nonlinear_arith)
        requires
            a >= 0 && seg >= 0,
    ;
    lemma_multiply_divide_lt(a * seg, 0x100000000, seg);
}

/// Compute the three vertices of the edge of signature `(h0, h1)` inside a
/// chunk with segments of `segment_size` vertices.
pub fn edge_vertices(h0: u64, h1: u64, segment_size: usize) -> (r: (usize, usize, usize))
    requires
        1 <= segment_size < 0x100000000,
        130 * segment_size <= usize::MAX,
    ensures
        r.0 == spec_edge0(h0, segment_size as int),
        r.1 == spec_edge1(h0, h1, segment_size as int),
        r.2 == spec_edge2(h0, h1, segment_size as int),
        r.0 < r.1 < r.2,
        r.2 < 130 * segment_size,
{
    proof {
        lemma_edge_shape(h0, h1, segment_size as int);
    }
    let seg = segment_size as u64;
    let fs = ((h0 >> 16u64) & 127u64) as usize;
    assert((h0 >> 16u64) & 127u64 < 128u64) by (bit_vector);
    assert(h0 >> 32u64 < 0x100000000u64) by (bit_vector);
    assert(h1 & 0xFFFF_FFFFu64 < 0x100000000u64) by (bit_vector);
    assert(h1 >> 32u64 < 0x100000000u64) by (bit_vector);
    let x0 = frac_part(h0 >> 32u64, seg) as usize;
    let x1 = frac_part(h1 & 0xFFFF_FFFFu64, seg) as usize;
    let x2 = frac_part(h1 >> 32u64, seg) as usize;
    proof {
        lemma_mul_inequality(spec_first_seg(h0) + 3, 130, segment_size as int);
        assert((spec_first_seg(h0) + 1) * (segment_size as int) == spec_first_seg(h0) * (
        segment_size as int) + segment_size) by (nonlinear_arith);
        assert((spec_first_seg(h0) + 2) * (segment_size as int) == spec_first_seg(h0) * (
        segment_size as int) + 2 * segment_size) by (nonlinear_arith);
        assert((spec_first_seg(h0) + 3) * (segment_size as int) == spec_first_seg(h0) * (
        segment_size as int) + 3 * segment_size) by (nonlinear_arith);
    }
    let base = fs * segment_size;
    (x0 + base, x1 + base + segment_size, x2 + base + 2 * segment_size)
}

/// Scale a 32-bit value `a` into `[0, seg)` as `(a * seg) >> 32`.
fn frac_part(a: u64, seg: u64) -> (r: u64)
    requires
        a < 0x100000000,
        1 <= seg < 0x100000000,
    ensures
        r == ((a as int) * (seg as int)) / 0x100000000,
        r < seg,
{
    proof {
        assert((a as int) * (seg as int) < 0x10000000000000000) by (nonlinear_arith)
            requires
                a < 0x100000000 && seg < 0x100000000,
        ;
        assert((a as int) * (seg as int) >= 0) by (nonlinear_arith)
            requires
                a >= 0 && seg >= 0,
        ;
        lemma_fraction_bound(a as int, seg as int);
    }
    let p = a * seg;
    proof {
        lemma_u64_shr_is_div(p, 32);
        assert(pow2(32) == 0x100000000) by {
            lemma2_to64();
            lemma2_to64_rest();
        }
    }
    p >> 32u64
}

} // verus!

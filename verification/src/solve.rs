//! Solving one chunk: build the packed per-vertex edge accumulators, peel
//! degree-1 vertices to obtain a peel stack, then walk the stack backwards
//! assigning cell values so that the three cells of every edge XOR to the
//! value of its key.
//!
//! A vertex accumulator is one `u64`: the high 10 bits hold the degree, the
//! low 54 bits hold the XOR of the indices of the incident edges.  A vertex
//! of degree 1 thus exposes its single remaining edge directly.

use vstd::prelude::*;

verus! {

use vstd::pervasive::VecAdditionalExecFns;
use crate::edge::{
    edge_vertices, lemma_edge_shape, spec_edge0, spec_edge1, spec_edge2, spec_on_edge,
};
use crate::error::BuildError;
use crate::hash::SigVal;

/// The unit of the degree field of an accumulator: one past the 54 low
/// bits holding the XOR of the incident edge indices.
pub const DEG_ONE: u64 = 0x0040_0000_0000_0000;

/// Mask of the edge-index field of an accumulator.
pub const EDGE_INDEX_MASK: u64 = 0x003F_FFFF_FFFF_FFFF;

/// The degree field of an accumulator word.
pub open spec fn deg_of(w: u64) -> u64 {
    w >> 54u64
}

/// The edge-index field of an accumulator word.
pub open spec fn acc_of(w: u64) -> u64 {
    w & EDGE_INDEX_MASK
}

/// Whether vertex `v` lies on edge `e` of the chunk.
pub open spec fn edge_has_vertex(sigs: Seq<SigVal>, seg: int, e: int, v: int) -> bool {
    spec_on_edge(sigs[e].h0, sigs[e].h1, seg, v)
}

/// Degree of vertex `v` among the first `n` edges whose `alive` flag is set.
pub open spec fn g_deg(sigs: Seq<SigVal>, alive: Seq<bool>, seg: int, v: int, n: int) -> int
    decreases n,
{
    if n <= 0 {
        0
    } else {
        g_deg(sigs, alive, seg, v, n - 1) + if alive[n - 1] && edge_has_vertex(
            sigs,
            seg,
            n - 1,
            v,
        ) {
            1int
        } else {
            0int
        }
    }
}

/// XOR of the indices of the first `n` edges that are alive and touch `v`.
pub open spec fn g_acc(sigs: Seq<SigVal>, alive: Seq<bool>, seg: int, v: int, n: int) -> u64
    decreases n,
{
    if n <= 0 {
        0u64
    } else {
        let rest = g_acc(sigs, alive, seg, v, n - 1);
        if alive[n - 1] && edge_has_vertex(sigs, seg, n - 1, v) {
            rest ^ ((n - 1) as u64)
        } else {
            rest
        }
    }
}

/// Number of set flags among the first `n`.
pub open spec fn alive_count(alive: Seq<bool>, n: int) -> int
    decreases n,
{
    if n <= 0 {
        0
    } else {
        alive_count(alive, n - 1) + if alive[n - 1] {
            1int
        } else {
            0int
        }
    }
}

/// The sequence of `m` set flags: the state before any edge is peeled.
pub open spec fn all_alive(m: int) -> Seq<bool> {
    Seq::new(m as nat, |i: int| true)
}

proof fn lemma_deg_nonneg(sigs: Seq<SigVal>, alive: Seq<bool>, seg: int, v: int, n: int)
    ensures
        g_deg(sigs, alive, seg, v, n) >= 0,
    decreases n,
{
    if n > 0 {
        lemma_deg_nonneg(sigs, alive, seg, v, n - 1);
    }
}

proof fn lemma_count_nonneg(alive: Seq<bool>, n: int)
    ensures
        alive_count(alive, n) >= 0,
    decreases n,
{
    if n > 0 {
        lemma_count_nonneg(alive, n - 1);
    }
}

/// Degrees only grow as more edges are scanned.
proof fn lemma_deg_mono(sigs: Seq<SigVal>, alive: Seq<bool>, seg: int, v: int, n1: int, n2: int)
    requires
        n1 <= n2,
    ensures
        g_deg(sigs, alive, seg, v, n1) <= g_deg(sigs, alive, seg, v, n2),
    decreases n2 - n1,
{
    if n1 < n2 {
        lemma_deg_mono(sigs, alive, seg, v, n1, n2 - 1);
    }
}

/// Killing one alive edge lowers by one the degree of exactly its endpoints
/// and XORs its index out of their accumulators; other vertices keep both.
proof fn lemma_flip(sigs: Seq<SigVal>, alive: Seq<bool>, seg: int, v: int, n: int, e0: int)
    requires
        0 <= e0 < alive.len(),
        alive[e0],
        n <= alive.len(),
        alive.len() <= u64::MAX,
    ensures
        g_deg(sigs, alive.update(e0, false), seg, v, n) == g_deg(sigs, alive, seg, v, n) - (if e0
            < n && edge_has_vertex(sigs, seg, e0, v) {
            1int
        } else {
            0int
        }),
        g_acc(sigs, alive.update(e0, false), seg, v, n) == (if e0 < n && edge_has_vertex(
            sigs,
            seg,
            e0,
            v,
        ) {
            g_acc(sigs, alive, seg, v, n) ^ (e0 as u64)
        } else {
            g_acc(sigs, alive, seg, v, n)
        }),
    decreases n,
{
    if n > 0 {
        lemma_flip(sigs, alive, seg, v, n - 1, e0);
        let r1 = g_acc(sigs, alive, seg, v, n - 1);
        let e64 = e0 as u64;
        let m64 = (n - 1) as u64;
        if e0 == n - 1 && edge_has_vertex(sigs, seg, e0, v) {
            assert((r1 ^ e64) ^ e64 == r1) by (bit_vector);
        }
        if e0 < n - 1 {
            assert((r1 ^ e64) ^ m64 == (r1 ^ m64) ^ e64) by (bit_vector);
        }
    }
}

/// Killing one alive edge lowers the alive count by one.
proof fn lemma_count_flip(alive: Seq<bool>, n: int, e0: int)
    requires
        0 <= e0 < alive.len(),
        alive[e0],
        n <= alive.len(),
    ensures
        alive_count(alive.update(e0, false), n) == alive_count(alive, n) - (if e0 < n {
            1int
        } else {
            0int
        }),
    decreases n,
{
    if n > 0 {
        lemma_count_flip(alive, n - 1, e0);
    }
}

/// A vertex of degree zero has an empty accumulator and no alive edge.
proof fn lemma_deg_zero(sigs: Seq<SigVal>, alive: Seq<bool>, seg: int, v: int, n: int)
    requires
        g_deg(sigs, alive, seg, v, n) == 0,
    ensures
        g_acc(sigs, alive, seg, v, n) == 0,
        forall|e: int| 0 <= e < n && #[trigger] alive[e] ==> !edge_has_vertex(sigs, seg, e, v),
    decreases n,
{
    if n > 0 {
        lemma_deg_nonneg(sigs, alive, seg, v, n - 1);
        lemma_deg_zero(sigs, alive, seg, v, n - 1);
    }
}

/// A vertex of degree one exposes its unique alive incident edge in its
/// accumulator.
proof fn lemma_deg_one(sigs: Seq<SigVal>, alive: Seq<bool>, seg: int, v: int, n: int)
    requires
        g_deg(sigs, alive, seg, v, n) == 1,
        n <= u64::MAX,
    ensures
        ({
            let e = g_acc(sigs, alive, seg, v, n) as int;
            &&& 0 <= e < n
            &&& alive[e]
            &&& edge_has_vertex(sigs, seg, e, v)
            &&& forall|e2: int|
                0 <= e2 < n && #[trigger] alive[e2] && edge_has_vertex(sigs, seg, e2, v) ==> e2
                    == e
        }),
    decreases n,
{
    if n > 0 {
        lemma_deg_nonneg(sigs, alive, seg, v, n - 1);
        if alive[n - 1] && edge_has_vertex(sigs, seg, n - 1, v) {
            lemma_deg_zero(sigs, alive, seg, v, n - 1);
            let e64 = (n - 1) as u64;
            assert(0u64 ^ e64 == e64) by (bit_vector);
        } else {
            lemma_deg_one(sigs, alive, seg, v, n - 1);
        }
    }
}

/// An alive incident edge forces a positive degree.
proof fn lemma_deg_pos(sigs: Seq<SigVal>, alive: Seq<bool>, seg: int, v: int, n: int, e: int)
    requires
        0 <= e < n,
        alive[e],
        edge_has_vertex(sigs, seg, e, v),
    ensures
        g_deg(sigs, alive, seg, v, n) >= 1,
    decreases n,
{
    lemma_deg_nonneg(sigs, alive, seg, v, n - 1);
    if e < n - 1 {
        lemma_deg_pos(sigs, alive, seg, v, n - 1, e);
    }
}

/// When the alive count reaches zero no edge is alive.
proof fn lemma_count_zero(alive: Seq<bool>, n: int)
    requires
        alive_count(alive, n) == 0,
    ensures
        forall|e: int| 0 <= e < n ==> !(#[trigger] alive[e]),
    decreases n,
{
    if n > 0 {
        lemma_count_nonneg(alive, n - 1);
        lemma_count_zero(alive, n - 1);
    }
}

/// A positive count names at least one alive flag.
proof fn lemma_count_pos_exists(alive: Seq<bool>, n: int)
    requires
        alive_count(alive, n) > 0,
    ensures
        exists|e: int| 0 <= e < n && alive[e],
    decreases n,
{
    if n > 0 {
        if alive[n - 1] {
            assert(0 <= n - 1 < n && alive[n - 1]);
        } else {
            lemma_count_pos_exists(alive, n - 1);
        }
    }
}

/// The stack entry of least index whose edge is still alive.
pub open spec fn first_alive(st: Seq<(usize, usize)>, alive: Seq<bool>, i: int) -> bool {
    &&& 0 <= i < st.len()
    &&& alive[st[i].1 as int]
    &&& forall|j: int| 0 <= j < i ==> !alive[(#[trigger] st[j]).1 as int]
}

/// Some stack entry with an alive edge has least index among them.
proof fn lemma_min_alive_index(st: Seq<(usize, usize)>, alive: Seq<bool>, i0: int)
    requires
        0 <= i0 < st.len(),
        alive[st[i0].1 as int],
    ensures
        exists|i: int| #[trigger] first_alive(st, alive, i),
    decreases i0,
{
    if exists|j: int| 0 <= j < i0 && alive[(#[trigger] st[j]).1 as int] {
        let j = choose|j: int| 0 <= j < i0 && alive[(#[trigger] st[j]).1 as int];
        lemma_min_alive_index(st, alive, j);
    } else {
        assert(first_alive(st, alive, i0));
    }
}

/// A vertex with no alive incident edge below `n` has degree zero there.
proof fn lemma_deg_none(sigs: Seq<SigVal>, alive: Seq<bool>, seg: int, v: int, n: int)
    requires
        forall|e2: int|
            0 <= e2 < n && #[trigger] alive[e2] ==> !edge_has_vertex(sigs, seg, e2, v),
    ensures
        g_deg(sigs, alive, seg, v, n) == 0,
    decreases n,
{
    if n > 0 {
        assert forall|e2: int|
            0 <= e2 < n - 1 && #[trigger] alive[e2] implies !edge_has_vertex(
            sigs,
            seg,
            e2,
            v,
        ) by {}
        lemma_deg_none(sigs, alive, seg, v, n - 1);
    }
}

/// A vertex whose only alive incident edge below `n` is `e` has degree one.
proof fn lemma_deg_exactly_one(
    sigs: Seq<SigVal>,
    alive: Seq<bool>,
    seg: int,
    v: int,
    n: int,
    e: int,
)
    requires
        0 <= e < n,
        alive[e],
        edge_has_vertex(sigs, seg, e, v),
        forall|e2: int|
            0 <= e2 < n && #[trigger] alive[e2] && e2 != e ==> !edge_has_vertex(sigs, seg, e2, v),
    ensures
        g_deg(sigs, alive, seg, v, n) == 1,
    decreases n,
{
    if e == n - 1 {
        assert forall|e2: int|
            0 <= e2 < n - 1 && #[trigger] alive[e2] implies !edge_has_vertex(
            sigs,
            seg,
            e2,
            v,
        ) by {}
        lemma_deg_none(sigs, alive, seg, v, n - 1);
    } else {
        lemma_deg_exactly_one(sigs, alive, seg, v, n - 1, e);
    }
}

proof fn lemma_count_all_alive(m: int)
    requires
        m >= 0,
    ensures
        alive_count(all_alive(m), m) == m,
{
    lemma_count_true(all_alive(m), m);
}

/// A stretch of set flags counts its own length.
proof fn lemma_count_true(alive: Seq<bool>, n: int)
    requires
        forall|i: int| 0 <= i < n ==> alive[i],
    ensures
        alive_count(alive, n) == if n >= 0 { n } else { 0 },
    decreases n,
{
    if n > 0 {
        lemma_count_true(alive, n - 1);
    }
}

/// An alive flag makes the count positive.
proof fn lemma_count_pos(alive: Seq<bool>, n: int, e: int)
    requires
        0 <= e < n,
        alive[e],
    ensures
        alive_count(alive, n) >= 1,
    decreases n,
{
    lemma_count_nonneg(alive, n - 1);
    if e < n - 1 {
        lemma_count_pos(alive, n - 1, e);
    }
}

/// Adding an edge to a vertex word: the degree field gains one, the index
/// field XORs in the edge, and the addition cannot overflow.
proof fn lemma_pack_add(w: u64, e: u64)
    requires
        deg_of(w) < 1023,
        e <= 0x003F_FFFF_FFFF_FFFF,
    ensures
        w <= u64::MAX - DEG_ONE,
        deg_of(((w + DEG_ONE) as u64) ^ e) == deg_of(w) + 1,
        acc_of(((w + DEG_ONE) as u64) ^ e) == acc_of(w) ^ e,
{
    assert((w >> 54u64) < 1023 && e <= 0x003F_FFFF_FFFF_FFFFu64 ==> w <= 0xFFFF_FFFF_FFFF_FFFFu64
        - 0x0040_0000_0000_0000u64 && ((((w + 0x0040_0000_0000_0000u64) as u64) ^ e) >> 54u64) == (
    w >> 54u64) + 1 && ((((w + 0x0040_0000_0000_0000u64) as u64) ^ e) & 0x003F_FFFF_FFFF_FFFFu64)
        == ((w & 0x003F_FFFF_FFFF_FFFFu64) ^ e)) by (bit_vector);
}

/// Removing an edge from a vertex word: the degree field loses one and the
/// index field XORs the edge out; the subtraction cannot underflow.
proof fn lemma_pack_sub(w: u64, e: u64)
    requires
        deg_of(w) >= 1,
        e <= 0x003F_FFFF_FFFF_FFFF,
    ensures
        w >= DEG_ONE,
        deg_of(((w - DEG_ONE) as u64) ^ e) == deg_of(w) - 1,
        acc_of(((w - DEG_ONE) as u64) ^ e) == acc_of(w) ^ e,
{
    assert((w >> 54u64) >= 1 && e <= 0x003F_FFFF_FFFF_FFFFu64 ==> w >= 0x0040_0000_0000_0000u64
        && ((((w - 0x0040_0000_0000_0000u64) as u64) ^ e) >> 54u64) == (w >> 54u64) - 1 && ((((w
        - 0x0040_0000_0000_0000u64) as u64) ^ e) & 0x003F_FFFF_FFFF_FFFFu64) == ((w
        & 0x003F_FFFF_FFFF_FFFFu64) ^ e)) by (bit_vector);
}

/// The degree field can never exceed its 10 bits.
proof fn lemma_deg_field_bound(w: u64)
    ensures
        deg_of(w) <= 1023,
{
    assert((w >> 54u64) <= 1023u64) by (bit_vector);
}

/// The chunk admits a complete peel order: some well-formed stack lists
/// every edge exactly once.
pub open spec fn peelable(sigs: Seq<SigVal>, seg: int) -> bool {
    exists|st: Seq<(usize, usize)>|
        #[trigger] peel_stack_ok(sigs, seg, st) && st.len() == sigs.len() && peel_complete(
            sigs,
            st,
        )
}

/// A chunk of one edge peels trivially: removing the edge at its first
/// endpoint is a complete peel order.
pub proof fn lemma_single_edge_peelable(sigs: Seq<SigVal>, seg: int)
    requires
        sigs.len() == 1,
        1 <= seg < 0x100000000,
        130 * seg <= usize::MAX,
    ensures
        peelable(sigs, seg),
{
    lemma_edge_shape(sigs[0].h0, sigs[0].h1, seg);
    let st = seq![(spec_edge0(sigs[0].h0, seg) as usize, 0usize)];
    assert(edge_has_vertex(sigs, seg, 0, st[0].0 as int));
    assert(peel_stack_ok(sigs, seg, st));
    assert(st[0].1 == 0);
    assert(edge_listed(st, 0));
    assert(peel_complete(sigs, st));
    assert(peel_stack_ok(sigs, seg, st) && st.len() == sigs.len() && peel_complete(sigs, st));
}

/// A well-formed peel stack: every entry names a real edge and one of its
/// endpoints; edges are listed at most once; and the vertex of an entry lies
/// on no edge listed later.
pub open spec fn peel_stack_ok(sigs: Seq<SigVal>, seg: int, stack: Seq<(usize, usize)>) -> bool {
    &&& forall|i: int|
        0 <= i < stack.len() ==> (#[trigger] stack[i]).1 < sigs.len() && edge_has_vertex(
            sigs,
            seg,
            stack[i].1 as int,
            stack[i].0 as int,
        ) && stack[i].0 < 130 * seg
    &&& forall|i: int, j: int|
        #![trigger stack[i], stack[j]]
        0 <= i < j < stack.len() ==> stack[i].1 != stack[j].1 && !edge_has_vertex(
            sigs,
            seg,
            stack[j].1 as int,
            stack[i].0 as int,
        )
}

/// Edge `e` appears somewhere on the stack.
pub open spec fn edge_listed(stack: Seq<(usize, usize)>, e: int) -> bool {
    exists|i: int| 0 <= i < stack.len() && (#[trigger] stack[i]).1 == e
}

/// Every edge of the chunk appears on the stack.
pub open spec fn peel_complete(sigs: Seq<SigVal>, stack: Seq<(usize, usize)>) -> bool {
    forall|e: int| 0 <= e < sigs.len() ==> #[trigger] edge_listed(stack, e)
}

/// The three cells of edge `e` XOR to the value of its key.
pub open spec fn chunk_cells_ok(vals: Seq<u64>, sigs: Seq<SigVal>, seg: int, e: int) -> bool {
    (vals[spec_edge0(sigs[e].h0, seg)] ^ vals[spec_edge1(sigs[e].h0, sigs[e].h1, seg)]) ^ vals[
        spec_edge2(sigs[e].h0, sigs[e].h1, seg)] == sigs[e].val
}

/// A vector of `n` zeroed cells.
pub fn zero_vec(n: usize) -> (r: Vec<u64>)
    ensures
        r@.len() == n,
        forall|i: int| 0 <= i < n ==> r@[i] == 0u64,
{
    let mut r: Vec<u64> = Vec::new();
    let mut i: usize = 0;
    while i < n
        invariant
            i <= n,
            r@.len() == i,
            forall|j: int| 0 <= j < i ==> r@[j] == 0u64,
        decreases n - i,
    {
        r.push(0u64);
        i = i + 1;
    }
    r
}

/// Peel one chunk: strip degree-1 vertices until none is left, recording
/// the removal order.  On success the stack holds exactly one entry per
/// edge of the chunk.  `Capacity` comes back exactly when some vertex's
/// degree would not fit the 10-bit field; `Unpeelable` when a non-empty
/// 2-core remains.
#[verifier::rlimit(100)]
pub fn peel_chunk(sigs: &Vec<SigVal>, segment_size: usize) -> (r: Result<
    Vec<(usize, usize)>,
    BuildError,
>)
    requires
        1 <= segment_size < 0x100000000,
        130 * segment_size <= usize::MAX,
        sigs@.len() < 0x0040_0000_0000_0000,
    ensures
        match r {
            Ok(stack) => {
                &&& peel_stack_ok(sigs@, segment_size as int, stack@)
                &&& stack@.len() == sigs@.len()
                &&& peel_complete(sigs@, stack@)
                &&& peelable(sigs@, segment_size as int)
            },
            Err(e) => e == BuildError::Unpeelable || e == BuildError::Capacity,
        },
        r == Result::<Vec<(usize, usize)>, BuildError>::Err(BuildError::Unpeelable)
            ==> !peelable(sigs@, segment_size as int),
        r == Result::<Vec<(usize, usize)>, BuildError>::Err(BuildError::Capacity) <==> exists|
            v: int,
        |
            0 <= v < 130 * (segment_size as int) && g_deg(
                sigs@,
                all_alive(sigs@.len() as int),
                segment_size as int,
                v,
                sigs@.len() as int,
            ) > 1023,
{
    let m: usize = sigs.len();
    let nv: usize = 130 * segment_size;
    let ghost seg: int = segment_size as int;
    let ghost full = all_alive(m as int);
    let mut words: Vec<u64> = zero_vec(nv);
    proof {
        assert(0u64 >> 54u64 == 0u64) by (bit_vector);
        assert(0u64 & 0x003F_FFFF_FFFF_FFFFu64 == 0u64) by (bit_vector);
    }

    // Build the accumulators, one edge at a time.
    let mut e: usize = 0;
    while e < m
        invariant
            e <= m,
            m == sigs@.len(),
            nv == 130 * (segment_size as int),
            1 <= segment_size < 0x100000000,
            130 * segment_size <= usize::MAX,
            m < 0x0040_0000_0000_0000,
            seg == segment_size as int,
            full == all_alive(m as int),
            words@.len() == nv,
            forall|v: int|
                0 <= v < nv ==> deg_of(#[trigger] words@[v]) == g_deg(sigs@, full, seg, v, e as int)
                    && acc_of(words@[v]) == g_acc(sigs@, full, seg, v, e as int),
        decreases m - e,
    {
        let sv = sigs[e];
        let (a, b, c) = edge_vertices(sv.h0, sv.h1, segment_size);
        let e64 = e as u64;
        proof {
            lemma_edge_shape(sv.h0, sv.h1, seg);
            assert(forall|v: int|
                edge_has_vertex(sigs@, seg, e as int, v) <==> (v == a as int || v == b as int || v
                    == c as int));
        }
        if words[a] >> 54u64 >= 1023 || words[b] >> 54u64 >= 1023 || words[c] >> 54u64 >= 1023 {
            proof {
                let culprit: int = if deg_of(words@[a as int]) >= 1023 {
                    a as int
                } else if deg_of(words@[b as int]) >= 1023 {
                    b as int
                } else {
                    c as int
                };
                assert(g_deg(sigs@, full, seg, culprit, e as int + 1) > 1023);
                lemma_deg_mono(sigs@, full, seg, culprit, e as int + 1, m as int);
                assert(0 <= culprit < 130 * (segment_size as int) && g_deg(
                    sigs@,
                    full,
                    seg,
                    culprit,
                    m as int,
                ) > 1023);
            }
            return Err(BuildError::Capacity);
        }
        proof {
            lemma_pack_add(words@[a as int], e64);
        }
        let wa = (words[a] + DEG_ONE) ^ e64;
        words.set(a, wa);
        proof {
            lemma_pack_add(words@[b as int], e64);
        }
        let wb = (words[b] + DEG_ONE) ^ e64;
        words.set(b, wb);
        proof {
            lemma_pack_add(words@[c as int], e64);
        }
        let wc = (words[c] + DEG_ONE) ^ e64;
        words.set(c, wc);
        e = e + 1;
    }
    proof {
        assert forall|v: int| 0 <= v < nv implies g_deg(sigs@, full, seg, v, m as int) <= 1023 by {
            lemma_deg_field_bound(words@[v]);
        }
    }

    // Seed the worklist with every vertex of degree one.
    let mut pending: Vec<usize> = Vec::new();
    let mut v0: usize = 0;
    while v0 < nv
        invariant
            v0 <= nv,
            words@.len() == nv,
            forall|p: int| 0 <= p < pending@.len() ==> (#[trigger] pending@[p]) < nv,
            forall|v: int|
                0 <= v < v0 && deg_of(#[trigger] words@[v]) == 1 ==> pending@.contains(v as usize),
        decreases nv - v0,
    {
        let ghost before = pending@;
        if words[v0] >> 54u64 == 1 {
            pending.push(v0);
        }
        proof {
            assert forall|v: int|
                0 <= v < v0 + 1 && deg_of(#[trigger] words@[v]) == 1 implies pending@.contains(
                v as usize,
            ) by {
                if v < v0 {
                    let p = choose|p: int| 0 <= p < before.len() && before[p] == v as usize;
                    assert(pending@[p] == v as usize);
                } else {
                    assert(pending@[pending@.len() - 1] == v0);
                }
            }
        }
        v0 = v0 + 1;
    }

    // Peel: pop candidates, remove the unique edge of each true degree-1
    // vertex, and enqueue endpoints that drop to degree one.
    let ghost mut alive: Seq<bool> = full;
    let ghost mut n_alive: int = m as int;
    let mut stack: Vec<(usize, usize)> = Vec::new();
    proof {
        lemma_count_all_alive(m as int);
    }
    while pending.len() > 0
        invariant
            m == sigs@.len(),
            nv == 130 * (segment_size as int),
            1 <= segment_size < 0x100000000,
            130 * segment_size <= usize::MAX,
            m < 0x0040_0000_0000_0000,
            seg == segment_size as int,
            full == all_alive(m as int),
            words@.len() == nv,
            alive.len() == m,
            n_alive == alive_count(alive, m as int),
            n_alive >= 0,
            n_alive + stack@.len() == m,
            forall|v: int| 0 <= v < nv ==> g_deg(sigs@, full, seg, v, m as int) <= 1023,
            forall|p: int| 0 <= p < pending@.len() ==> (#[trigger] pending@[p]) < nv,
            forall|v: int|
                0 <= v < nv ==> deg_of(#[trigger] words@[v]) == g_deg(sigs@, alive, seg, v, m as int)
                    && acc_of(words@[v]) == g_acc(sigs@, alive, seg, v, m as int),
            forall|v: int|
                0 <= v < nv && deg_of(#[trigger] words@[v]) == 1 ==> pending@.contains(v as usize),
            forall|i: int|
                0 <= i < stack@.len() ==> (#[trigger] stack@[i]).1 < m && !alive[stack@[i].1 as int]
                    && edge_has_vertex(sigs@, seg, stack@[i].1 as int, stack@[i].0 as int)
                    && stack@[i].0 < nv,
            forall|i: int, e2: int|
                #![trigger stack@[i], alive[e2]]
                0 <= i < stack@.len() && 0 <= e2 < m && alive[e2] ==> !edge_has_vertex(
                    sigs@,
                    seg,
                    e2,
                    stack@[i].0 as int,
                ),
            forall|i: int, j: int|
                #![trigger stack@[i], stack@[j]]
                0 <= i < j < stack@.len() ==> stack@[i].1 != stack@[j].1 && !edge_has_vertex(
                    sigs@,
                    seg,
                    stack@[j].1 as int,
                    stack@[i].0 as int,
                ),
            forall|e2: int|
                0 <= e2 < m && !(#[trigger] alive[e2]) ==> exists|i: int|
                    0 <= i < stack@.len() && (#[trigger] stack@[i]).1 == e2,
        decreases n_alive, pending@.len(),
    {
        let ghost old_pending = pending@;
        let v = pending.pop().unwrap();
        proof {
            assert forall|u: usize| old_pending.contains(u) && u != v implies pending@.contains(
                u,
            ) by {
                let p = choose|p: int| 0 <= p < old_pending.len() && old_pending[p] == u;
                assert(pending@[p] == u);
            }
        }
        if words[v] >> 54u64 == 1 {
            proof {
                lemma_deg_one(sigs@, alive, seg, v as int, m as int);
            }
            let e64 = words[v] & EDGE_INDEX_MASK;
            let ei = e64 as usize;
            let ghost eint = ei as int;
            let ghost alive_old = alive;
            let ghost old_stack = stack@;
            let sv = sigs[ei];
            let (a, b, c) = edge_vertices(sv.h0, sv.h1, segment_size);
            proof {
                lemma_edge_shape(sv.h0, sv.h1, seg);
                assert(forall|u: int|
                    edge_has_vertex(sigs@, seg, eint, u) <==> (u == a as int || u == b as int || u
                        == c as int));
                assert(v == a || v == b || v == c);
                lemma_deg_pos(sigs@, alive_old, seg, a as int, m as int, eint);
                lemma_deg_pos(sigs@, alive_old, seg, b as int, m as int, eint);
                lemma_deg_pos(sigs@, alive_old, seg, c as int, m as int, eint);
            }
            stack.push((v, ei));
            proof {
                lemma_pack_sub(words@[a as int], e64);
            }
            let wa = (words[a] - DEG_ONE) ^ e64;
            words.set(a, wa);
            proof {
                lemma_pack_sub(words@[b as int], e64);
            }
            let wb = (words[b] - DEG_ONE) ^ e64;
            words.set(b, wb);
            proof {
                lemma_pack_sub(words@[c as int], e64);
            }
            let wc = (words[c] - DEG_ONE) ^ e64;
            words.set(c, wc);
            proof {
                lemma_count_pos(alive_old, m as int, eint);
                alive = alive_old.update(eint, false);
                n_alive = n_alive - 1;
                lemma_count_flip(alive_old, m as int, eint);
                assert forall|u: int| 0 <= u < nv implies deg_of(#[trigger] words@[u]) == g_deg(
                    sigs@,
                    alive,
                    seg,
                    u,
                    m as int,
                ) && acc_of(words@[u]) == g_acc(sigs@, alive, seg, u, m as int) by {
                    lemma_flip(sigs@, alive_old, seg, u, m as int, eint);
                }
            }
            let ghost mid_pending = pending@;
            pending.push(a);
            pending.push(b);
            pending.push(c);
            proof {
                assert(pending@[mid_pending.len() as int] == a);
                assert(pending@[mid_pending.len() as int + 1] == b);
                assert(pending@[mid_pending.len() as int + 2] == c);
            }
            proof {
                // worklist completeness
                assert forall|u: usize| mid_pending.contains(u) implies pending@.contains(u) by {
                    let p = choose|p: int| 0 <= p < mid_pending.len() && mid_pending[p] == u;
                    assert(pending@[p] == u);
                }
                assert forall|u: int|
                    0 <= u < nv && deg_of(#[trigger] words@[u]) == 1 implies pending@.contains(
                    u as usize,
                ) by {
                    if u == a as int || u == b as int || u == c as int {
                        assert(pending@.contains(u as usize));
                    } else {
                        lemma_flip(sigs@, alive_old, seg, u, m as int, eint);
                        assert(g_deg(sigs@, alive_old, seg, u, m as int) == 1);
                        assert(old_pending.contains(u as usize));
                        assert(u as usize != v);
                        assert(mid_pending.contains(u as usize));
                    }
                }
                // dead edges are all on the stack
                assert forall|e2: int| 0 <= e2 < m && !(#[trigger] alive[e2]) implies exists|i: int|
                    0 <= i < stack@.len() && (#[trigger] stack@[i]).1 == e2 by {
                    if e2 == eint {
                        assert(stack@[stack@.len() - 1].1 == e2);
                    } else {
                        assert(!alive_old[e2]);
                        let i = choose|i: int|
                            0 <= i < old_stack.len() && (#[trigger] old_stack[i]).1 == e2;
                        assert(stack@[i].1 == e2);
                    }
                }
                // peeled vertices have no alive incident edge
                assert forall|i: int, e2: int|
                    #![trigger stack@[i], alive[e2]]
                    0 <= i < stack@.len() && 0 <= e2 < m && alive[e2] implies !edge_has_vertex(
                    sigs@,
                    seg,
                    e2,
                    stack@[i].0 as int,
                ) by {
                    if i == stack@.len() - 1 {
                        assert(deg_of(words@[v as int]) == 0);
                        lemma_deg_zero(sigs@, alive, seg, v as int, m as int);
                    } else {
                        assert(old_stack[i] == stack@[i]);
                        assert(alive_old[e2]);
                    }
                }
                // pairwise: distinct edges, later edges avoid earlier vertices
                assert forall|i: int, j: int|
                    #![trigger stack@[i], stack@[j]]
                    0 <= i < j < stack@.len() implies stack@[i].1 != stack@[j].1
                    && !edge_has_vertex(sigs@, seg, stack@[j].1 as int, stack@[i].0 as int) by {
                    if j == stack@.len() - 1 {
                        assert(old_stack[i] == stack@[i]);
                        assert(!alive_old[old_stack[i].1 as int]);
                        assert(alive_old[eint]);
                    } else {
                        assert(old_stack[i] == stack@[i]);
                        assert(old_stack[j] == stack@[j]);
                    }
                }
            }
        }
    }

    if stack.len() != m {
        proof {
            lemma_count_nonneg(alive, m as int);
            // the worklist is empty, so no vertex has degree one
            assert forall|v: int| 0 <= v < nv implies deg_of(#[trigger] words@[v]) != 1 by {
                if deg_of(words@[v]) == 1 {
                    assert(pending@.contains(v as usize));
                    assert(false);
                }
            }
            // any complete well-formed stack would name, among its entries
            // whose edges are still alive, a least one; that entry's vertex
            // would have degree one, which no vertex has
            assert(!peelable(sigs@, seg)) by {
                if peelable(sigs@, seg) {
                    let st = choose|st: Seq<(usize, usize)>|
                        #[trigger] peel_stack_ok(sigs@, seg, st) && st.len() == sigs@.len()
                            && peel_complete(sigs@, st);
                    assert(alive_count(alive, m as int) > 0);
                    lemma_count_pos_exists(alive, m as int);
                    let e0 = choose|e: int| 0 <= e < m && alive[e];
                    assert(edge_listed(st, e0));
                    let i0 = choose|i: int| 0 <= i < st.len() && (#[trigger] st[i]).1 == e0;
                    lemma_min_alive_index(st, alive, i0);
                    let imin = choose|i: int| #[trigger] first_alive(st, alive, i);
                    let vstar = st[imin].0 as int;
                    let estar = st[imin].1 as int;
                    assert(alive[estar]);
                    assert(edge_has_vertex(sigs@, seg, estar, vstar));
                    assert(0 <= vstar < nv);
                    assert forall|e2: int|
                        0 <= e2 < m && #[trigger] alive[e2] && e2 != estar implies !edge_has_vertex(
                        sigs@,
                        seg,
                        e2,
                        vstar,
                    ) by {
                        assert(edge_listed(st, e2));
                        let j = choose|j: int| 0 <= j < st.len() && (#[trigger] st[j]).1 == e2;
                        if j < imin {
                            assert(!alive[st[j].1 as int]);
                            assert(false);
                        } else if j == imin {
                            assert(false);
                        } else {
                            assert(!edge_has_vertex(sigs@, seg, st[j].1 as int, st[imin].0 as int));
                        }
                    }
                    lemma_deg_exactly_one(sigs@, alive, seg, vstar, m as int, estar);
                    assert(deg_of(words@[vstar]) == 1);
                    assert(false);
                }
            }
        }
        return Err(BuildError::Unpeelable);
    }
    proof {
        lemma_count_nonneg(alive, m as int);
        lemma_count_zero(alive, m as int);
        assert forall|e2: int| 0 <= e2 < sigs@.len() implies #[trigger] edge_listed(
            stack@,
            e2,
        ) by {
            assert(!alive[e2]);
            let i = choose|i: int| 0 <= i < stack@.len() && (#[trigger] stack@[i]).1 == e2;
            assert(stack@[i].1 == e2);
        }
        assert(peel_stack_ok(sigs@, seg, stack@) && stack@.len() == sigs@.len() && peel_complete(
            sigs@,
            stack@,
        ));
    }
    Ok(stack)
}

/// Walk a complete peel stack backwards, assigning each popped vertex the
/// cell value that makes its edge's three cells XOR to the key's value.
/// Entries popped later never touch the cells of edges fixed earlier, so
/// the equation of every edge survives to the end.
pub fn assign_chunk(sigs: &Vec<SigVal>, segment_size: usize, stack: &Vec<(usize, usize)>) -> (vals:
    Vec<u64>)
    requires
        1 <= segment_size < 0x100000000,
        130 * segment_size <= usize::MAX,
        peel_stack_ok(sigs@, segment_size as int, stack@),
        stack@.len() == sigs@.len(),
        peel_complete(sigs@, stack@),
    ensures
        vals@.len() == 130 * (segment_size as int),
        forall|e: int|
            0 <= e < sigs@.len() ==> chunk_cells_ok(vals@, sigs@, segment_size as int, e),
{
    let m: usize = sigs.len();
    let nv: usize = 130 * segment_size;
    let ghost seg: int = segment_size as int;
    let mut vals: Vec<u64> = zero_vec(nv);
    let mut i: usize = m;
    while i > 0
        invariant
            i <= m,
            m == sigs@.len(),
            m == stack@.len(),
            nv == 130 * (segment_size as int),
            1 <= segment_size < 0x100000000,
            130 * segment_size <= usize::MAX,
            seg == segment_size as int,
            vals@.len() == nv,
            peel_stack_ok(sigs@, seg, stack@),
            forall|j: int|
                i <= j < m ==> chunk_cells_ok(vals@, sigs@, seg, (#[trigger] stack@[j]).1 as int),
        decreases i,
    {
        i = i - 1;
        let entry = stack[i];
        let v = entry.0;
        let ei = entry.1;
        let sv = sigs[ei];
        let (a, b, c) = edge_vertices(sv.h0, sv.h1, segment_size);
        proof {
            lemma_edge_shape(sv.h0, sv.h1, seg);
            assert(edge_has_vertex(sigs@, seg, ei as int, v as int));
            assert(v == a || v == b || v == c);
        }
        let ghost old_vals = vals@;
        let t = sv.val;
        if v == a {
            let p = vals[b];
            let q = vals[c];
            vals.set(a, t ^ (p ^ q));
            proof {
                assert((((t ^ (p ^ q)) ^ p) ^ q) == t) by (bit_vector);
            }
        } else if v == b {
            let p = vals[a];
            let q = vals[c];
            vals.set(b, t ^ (p ^ q));
            proof {
                assert(((p ^ (t ^ (p ^ q))) ^ q) == t) by (bit_vector);
            }
        } else {
            let p = vals[a];
            let q = vals[b];
            vals.set(c, t ^ (p ^ q));
            proof {
                assert(((p ^ q) ^ (t ^ (p ^ q))) == t) by (bit_vector);
            }
        }
        proof {
            assert(chunk_cells_ok(vals@, sigs@, seg, ei as int));
            assert forall|j: int| i < j < m implies chunk_cells_ok(
                vals@,
                sigs@,
                seg,
                (#[trigger] stack@[j]).1 as int,
            ) by {
                let ej = stack@[j].1 as int;
                assert(!edge_has_vertex(sigs@, seg, ej, v as int));
                lemma_edge_shape(sigs@[ej].h0, sigs@[ej].h1, seg);
                assert(vals@[spec_edge0(sigs@[ej].h0, seg)] == old_vals[spec_edge0(
                    sigs@[ej].h0,
                    seg,
                )]);
                assert(vals@[spec_edge1(sigs@[ej].h0, sigs@[ej].h1, seg)] == old_vals[spec_edge1(
                    sigs@[ej].h0,
                    sigs@[ej].h1,
                    seg,
                )]);
                assert(vals@[spec_edge2(sigs@[ej].h0, sigs@[ej].h1, seg)] == old_vals[spec_edge2(
                    sigs@[ej].h0,
                    sigs@[ej].h1,
                    seg,
                )]);
            }
        }
    }
    proof {
        assert forall|e: int| 0 <= e < sigs@.len() implies chunk_cells_ok(vals@, sigs@, seg, e) by {
            assert(edge_listed(stack@, e));
            let j = choose|j: int| 0 <= j < stack@.len() && (#[trigger] stack@[j]).1 == e;
            assert(chunk_cells_ok(vals@, sigs@, seg, stack@[j].1 as int));
        }
    }
    vals
}

/// Solve one chunk: peel it and assign its cells.  On success the returned
/// cell array satisfies the XOR equation of every edge of the chunk.
pub fn solve_chunk(sigs: &Vec<SigVal>, segment_size: usize) -> (r: Result<Vec<u64>, BuildError>)
    requires
        1 <= segment_size < 0x100000000,
        130 * segment_size <= usize::MAX,
        sigs@.len() < 0x0040_0000_0000_0000,
    ensures
        match r {
            Ok(vals) => {
                &&& vals@.len() == 130 * (segment_size as int)
                &&& forall|e: int|
                    0 <= e < sigs@.len() ==> chunk_cells_ok(vals@, sigs@, segment_size as int, e)
            },
            Err(e) => e == BuildError::Unpeelable || e == BuildError::Capacity,
        },
        r == Result::<Vec<u64>, BuildError>::Err(BuildError::Unpeelable) ==> !peelable(
            sigs@,
            segment_size as int,
        ),
{
    match peel_chunk(sigs, segment_size) {
        Ok(stack) => Ok(assign_chunk(sigs, segment_size, &stack)),
        Err(e) => Err(e),
    }
}

} // verus!

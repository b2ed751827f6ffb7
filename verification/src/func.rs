//! The immutable static function: seed, layout parameters, and the flat
//! cell array.  A query hashes the key, picks the chunk from the high bits
//! of `h0`, maps the signature to three cells of the chunk, and XORs them.
//!
//! The persisted form is a little-endian record of six `u64` header words
//! (`seed`, `L`, `num_keys`, `chunk_mask`, `segment_size`, `values_len`)
//! followed by the cells.

use vstd::prelude::*;

verus! {

use vstd::bytes::{spec_u64_from_le_bytes, spec_u64_to_le_bytes, u64_from_le_bytes, u64_to_le_bytes,
    lemma_auto_spec_u64_to_from_le_bytes};
use vstd::slice::slice_subrange;
use crate::edge::{edge_vertices, lemma_edge_shape, spec_edge0, spec_edge1, spec_edge2};
use crate::hash::{group_of, mask64, sig_of, spec_group, spec_sig, lemma_group_le_mask};

/// The mathematical content of a [`VFunc`].
pub ghost struct FuncModel {
    pub seed: u64,
    pub l: usize,
    pub num_keys: usize,
    pub chunk_bits: u32,
    pub chunk_mask: u64,
    pub segment_size: usize,
    pub values: Seq<u64>,
}

impl FuncModel {
    /// Well-formedness: the layout parameters are consistent and the cell
    /// array has exactly one cell per vertex of every chunk.
    pub open spec fn wf(self) -> bool {
        &&& self.l == 128
        &&& self.chunk_bits <= 31
        &&& self.chunk_mask == mask64(self.chunk_bits as u64)
        &&& self.segment_size < 0x100000000
        &&& self.values.len() == (self.chunk_mask as int + 1) * ((self.segment_size as int) * 130)
        &&& self.values.len() <= usize::MAX
    }
}

/// What a query returns: XOR of the three cells of the key's edge inside
/// the key's chunk; 0 when the function is empty.
pub open spec fn model_get(m: FuncModel, key: u64) -> u64 {
    if m.values.len() == 0 {
        0u64
    } else {
        let s = spec_sig(key, m.seed);
        let ch = spec_group(s.0, m.chunk_bits as u64) as int;
        let seg = m.segment_size as int;
        let off = ch * (seg * 130);
        (m.values[off + spec_edge0(s.0, seg)] ^ m.values[off + spec_edge1(s.0, s.1, seg)])
            ^ m.values[off + spec_edge2(s.0, s.1, seg)]
    }
}

/// An immutable map from 64-bit keys to 64-bit values, built once from a
/// keyset and queried in constant time.  Only keys of the original keyset
/// get a meaningful answer; any other key gets an arbitrary cell XOR.
pub struct VFunc {
    pub seed: u64,
    pub l: usize,
    pub num_keys: usize,
    pub chunk_bits: u32,
    pub chunk_mask: u64,
    pub segment_size: usize,
    pub values: Vec<u64>,
}

impl View for VFunc {
    type V = FuncModel;

    open spec fn view(&self) -> FuncModel {
        FuncModel {
            seed: self.seed,
            l: self.l,
            num_keys: self.num_keys,
            chunk_bits: self.chunk_bits,
            chunk_mask: self.chunk_mask,
            segment_size: self.segment_size,
            values: self.values@,
        }
    }
}

impl VFunc {
    /// The number of keys the function was built from.
    pub fn len(&self) -> (r: usize)
        ensures
            r == self@.num_keys,
    {
        self.num_keys
    }

    /// Whether the function was built from no keys at all.
    pub fn is_empty(&self) -> (r: bool)
        ensures
            r == (self@.num_keys == 0),
    {
        self.num_keys == 0
    }

    /// Query a key: hash it with the stored seed, locate its chunk and its
    /// three cells, and XOR them.
    #[verifier::rlimit(100)]
    pub fn get(&self, key: u64) -> (r: u64)
        requires
            self@.wf(),
        ensures
            r == model_get(self@, key),
    {
        if self.values.len() == 0 {
            return 0u64;
        }
        let seg = self.segment_size;
        proof {
            assert(seg >= 1 && seg * 130 >= 130) by (nonlinear_arith)
                requires
                    seg < 0x100000000,
                    (self@.chunk_mask as int + 1) * ((seg as int) * 130) == self@.values.len(),
                    self@.values.len() > 0,
            ;
            assert((seg as int) * 130 <= self@.values.len()) by (nonlinear_arith)
                requires
                    (self@.chunk_mask as int + 1) * ((seg as int) * 130) == self@.values.len(),
                    (seg as int) * 130 >= 0,
            ;
        }
        let nv = 130 * seg;
        let s = sig_of(key, self.seed);
        let h0 = s.0;
        let h1 = s.1;
        let ch64 = group_of(h0, self.chunk_bits as u64);
        proof {
            lemma_group_le_mask(h0, self.chunk_bits as u64);
            let n = self.chunk_bits as u64;
            assert(n <= 31 ==> ((((1u64 << n) as u64) - 1) as u64) < 0x80000000u64) by (bit_vector);
        }
        let ch = ch64 as usize;
        proof {
            assert((ch as int) * ((seg as int) * 130) + (seg as int) * 130 <= (self@.chunk_mask
                as int + 1) * ((seg as int) * 130)) by (nonlinear_arith)
                requires
                    0 <= ch as int <= self@.chunk_mask,
                    (seg as int) * 130 >= 0,
            ;
            assert((ch as int) * ((seg as int) * 130) >= 0) by (nonlinear_arith)
                requires
                    ch as int >= 0,
                    (seg as int) * 130 >= 0,
            ;
            lemma_edge_shape(h0, h1, seg as int);
        }
        let off = ch * nv;
        let e = edge_vertices(h0, h1, seg);
        (self.values[off + e.0] ^ self.values[off + e.1]) ^ self.values[off + e.2]
    }

    /// Serialise into the little-endian persisted record.
    pub fn to_bytes(&self) -> (out: Vec<u8>)
        requires
            self@.wf(),
        ensures
            out@ == spec_serialize(self@),
    {
        let mut out: Vec<u8> = Vec::new();
        push_u64(&mut out, self.seed);
        push_u64(&mut out, self.l as u64);
        push_u64(&mut out, self.num_keys as u64);
        push_u64(&mut out, self.chunk_mask);
        push_u64(&mut out, self.segment_size as u64);
        push_u64(&mut out, self.values.len() as u64);
        let ghost header = out@;
        proof {
            assert(self.values@.take(0) =~= Seq::<u64>::empty());
            assert(header + spec_values_bytes(self.values@.take(0)) =~= header);
        }
        let mut i: usize = 0;
        while i < self.values.len()
            invariant
                i <= self.values@.len(),
                header == spec_header(self@),
                out@ == header + spec_values_bytes(self.values@.take(i as int)),
            decreases self.values@.len() - i,
        {
            push_u64(&mut out, self.values[i]);
            proof {
                assert(self.values@.take(i as int + 1).drop_last() =~= self.values@.take(i as int));
                assert(self.values@.take(i as int + 1).last() == self.values@[i as int]);
                assert(out@ =~= header + spec_values_bytes(self.values@.take(i as int + 1)));
            }
            i = i + 1;
        }
        proof {
            assert(self.values@.take(self.values@.len() as int) =~= self.values@);
        }
        out
    }

    /// Parse a persisted record.  Returns `None` exactly when the bytes are
    /// not a well-formed record.
    pub fn from_bytes(bytes: &Vec<u8>) -> (r: Option<VFunc>)
        ensures
            match r {
                Some(f) => {
                    &&& spec_parse(bytes@) == Some(f@)
                    &&& f@.wf()
                },
                None => spec_parse(bytes@) is None,
            },
    {
        proof {
            lemma_parse_wf(bytes@);
        }
        if bytes.len() < 48 {
            return None;
        }
        let seed = read_u64(bytes, 0);
        let l64 = read_u64(bytes, 8);
        let nk64 = read_u64(bytes, 16);
        let mask = read_u64(bytes, 24);
        let seg64 = read_u64(bytes, 32);
        let vl64 = read_u64(bytes, 40);
        let bits = mask_bits(mask);
        if l64 != 128 || bits > 31 || nk64 > usize::MAX as u64 || seg64 >= 0x100000000 || vl64
            > usize::MAX as u64 {
            return None;
        }
        let seg = seg64 as usize;
        let vl = vl64 as usize;
        if vl > (usize::MAX - 48) / 8 {
            proof {
                assert(8 * (vl as int) > usize::MAX - 48) by (nonlinear_arith)
                    requires
                        vl as int > (usize::MAX - 48) / 8,
                ;
            }
            return None;
        }
        proof {
            assert(8 * (vl as int) <= usize::MAX - 48) by (nonlinear_arith)
                requires
                    vl as int <= (usize::MAX - 48) / 8,
            ;
        }
        if bytes.len() != 48 + 8 * vl {
            return None;
        }
        proof {
            assert((mask as int + 1) * ((seg as int) * 130) <= 0x10000000000000000 * 0x8200000000)
                by (nonlinear_arith)
                requires
                    0 <= (mask as int) && (mask as int) < 0x10000000000000000,
                    0 <= (seg as int) && (seg as int) < 0x100000000,
            ;
        }
        let prod = (mask as u128 + 1) * ((seg as u128) * 130);
        if prod != vl as u128 {
            return None;
        }
        let mut values: Vec<u64> = Vec::new();
        let mut i: usize = 0;
        while i < vl
            invariant
                i <= vl,
                bytes@.len() == 48 + 8 * vl,
                48 + 8 * (vl as int) <= usize::MAX,
                values@.len() == i,
                forall|j: int|
                    0 <= j < i ==> values@[j] == spec_u64_from_le_bytes(
                        #[trigger] bytes@.subrange(48 + 8 * j, 56 + 8 * j),
                    ),
            decreases vl - i,
        {
            let x = read_u64(bytes, 48 + 8 * i);
            values.push(x);
            i = i + 1;
        }
        let f = VFunc {
            seed,
            l: 128,
            num_keys: nk64 as usize,
            chunk_bits: bits as u32,
            chunk_mask: mask,
            segment_size: seg,
            values,
        };
        proof {
            let pm = spec_parse(bytes@).unwrap();
            assert(f@.values =~= pm.values);
            assert(f@ == pm);
        }
        Some(f)
    }
}

/// Two successful builds over the same keys and values answer identically
/// on every input key, whatever their seeds and internal cell arrays: each
/// reconstructs the value assigned to the key.
pub proof fn lemma_builds_agree(
    f1: FuncModel,
    f2: FuncModel,
    keys: Seq<u64>,
    values: Seq<u64>,
    i: int,
)
    requires
        keys.len() == values.len(),
        forall|j: int| 0 <= j < keys.len() ==> model_get(f1, #[trigger] keys[j]) == values[j],
        forall|j: int| 0 <= j < keys.len() ==> model_get(f2, #[trigger] keys[j]) == values[j],
        0 <= i < keys.len(),
    ensures
        model_get(f1, keys[i]) == model_get(f2, keys[i]),
{
}

/// Serialising a well-formed function and parsing the bytes back yields
/// exactly the same function, so after a round trip through the persisted
/// form every query answers as before.
pub proof fn lemma_serde_roundtrip(m: FuncModel)
    requires
        m.wf(),
        m.num_keys <= usize::MAX,
    ensures
        spec_parse(spec_serialize(m)) == Some(m),
{
    lemma_auto_spec_u64_to_from_le_bytes();
    let vb = spec_values_bytes(m.values);
    lemma_values_bytes_len(m.values);
    let h = spec_header(m);
    assert(h.len() == 48);
    let bytes = spec_serialize(m);
    assert(bytes.len() == 48 + 8 * m.values.len());
    assert(bytes.subrange(0, 8) =~= spec_u64_to_le_bytes(m.seed));
    assert(bytes.subrange(8, 16) =~= spec_u64_to_le_bytes(m.l as u64));
    assert(bytes.subrange(16, 24) =~= spec_u64_to_le_bytes(m.num_keys as u64));
    assert(bytes.subrange(24, 32) =~= spec_u64_to_le_bytes(m.chunk_mask));
    assert(bytes.subrange(32, 40) =~= spec_u64_to_le_bytes(m.segment_size as u64));
    assert(bytes.subrange(40, 48) =~= spec_u64_to_le_bytes(m.values.len() as u64));
    lemma_mask_bits_finds(m.chunk_bits);
    let vl = m.values.len() as int;
    let parsed_vals = Seq::new(
        m.values.len(),
        |i: int| spec_u64_from_le_bytes(bytes.subrange(48 + 8 * i, 56 + 8 * i)),
    );
    assert forall|i: int| 0 <= i < vl implies parsed_vals[i] == m.values[i] by {
        lemma_values_bytes_at(m.values, i);
        assert(bytes.subrange(48 + 8 * i, 56 + 8 * i) =~= vb.subrange(8 * i, 8 * i + 8));
    }
    assert(parsed_vals =~= m.values);
    assert(spec_parse(bytes) is Some);
    let pm = spec_parse(bytes).unwrap();
    assert(pm == m);
}

/// The persisted cells take eight bytes each.
proof fn lemma_values_bytes_len(vs: Seq<u64>)
    ensures
        spec_values_bytes(vs).len() == 8 * vs.len(),
    decreases vs.len(),
{
    lemma_auto_spec_u64_to_from_le_bytes();
    if vs.len() > 0 {
        lemma_values_bytes_len(vs.drop_last());
    }
}

/// The bytes of the `i`-th cell sit at offset `8 * i` of the cell region.
proof fn lemma_values_bytes_at(vs: Seq<u64>, i: int)
    requires
        0 <= i < vs.len(),
    ensures
        spec_values_bytes(vs).subrange(8 * i, 8 * i + 8) == spec_u64_to_le_bytes(vs[i]),
    decreases vs.len(),
{
    lemma_auto_spec_u64_to_from_le_bytes();
    lemma_values_bytes_len(vs);
    lemma_values_bytes_len(vs.drop_last());
    if i == vs.len() - 1 {
        assert(spec_values_bytes(vs).subrange(8 * i, 8 * i + 8) =~= spec_u64_to_le_bytes(
            vs.last(),
        ));
    } else {
        lemma_values_bytes_at(vs.drop_last(), i);
        assert(spec_values_bytes(vs).subrange(8 * i, 8 * i + 8) =~= spec_values_bytes(
            vs.drop_last(),
        ).subrange(8 * i, 8 * i + 8));
        assert(vs.drop_last()[i] == vs[i]);
    }
}

/// The bit search recovers the width of a low-bits mask.
proof fn lemma_mask_bits_finds(b: u32)
    requires
        b <= 31,
    ensures
        spec_mask_bits(mask64(b as u64)) == b as u64,
{
    lemma_mask_bits_search(mask64(b as u64), b as u64, 0);
}

proof fn lemma_mask_bits_search(mask: u64, target: u64, k: u64)
    requires
        k <= target < 64,
        mask == mask64(target),
    ensures
        spec_mask_bits_rec(mask, k) == target,
    decreases 64 - k,
{
    if k < target {
        assert(((((1u64 << k) as u64) - 1) as u64) != ((((1u64 << target) as u64) - 1) as u64))
            by (bit_vector)
            requires
                k < target < 64,
        ;
        lemma_mask_bits_search(mask, target, (k + 1) as u64);
    }
}

/// The six header words of the persisted record.
pub open spec fn spec_header(m: FuncModel) -> Seq<u8> {
    spec_u64_to_le_bytes(m.seed) + spec_u64_to_le_bytes(m.l as u64) + spec_u64_to_le_bytes(
        m.num_keys as u64,
    ) + spec_u64_to_le_bytes(m.chunk_mask) + spec_u64_to_le_bytes(m.segment_size as u64)
        + spec_u64_to_le_bytes(m.values.len() as u64)
}

/// The cells of the persisted record, in order.
pub open spec fn spec_values_bytes(vs: Seq<u64>) -> Seq<u8>
    decreases vs.len(),
{
    if vs.len() == 0 {
        Seq::empty()
    } else {
        spec_values_bytes(vs.drop_last()) + spec_u64_to_le_bytes(vs.last())
    }
}

/// The whole persisted record of a function.
pub open spec fn spec_serialize(m: FuncModel) -> Seq<u8> {
    spec_header(m) + spec_values_bytes(m.values)
}

/// How many low bits a mask covers: the smallest `b <= 64` with
/// `mask64(b) == mask`, or 64 when there is none.
pub open spec fn spec_mask_bits(mask: u64) -> u64 {
    spec_mask_bits_rec(mask, 0)
}

pub open spec fn spec_mask_bits_rec(mask: u64, b: u64) -> u64
    decreases 64 - b,
{
    if b >= 64 {
        64u64
    } else if mask64(b) == mask {
        b
    } else {
        spec_mask_bits_rec(mask, (b + 1) as u64)
    }
}

/// Find how many low bits a mask covers.
fn mask_bits(mask: u64) -> (r: u64)
    ensures
        r == spec_mask_bits(mask),
{
    mask_bits_from(mask, 0)
}

fn mask_bits_from(mask: u64, b: u64) -> (r: u64)
    requires
        b <= 64,
    ensures
        r == spec_mask_bits_rec(mask, b),
    decreases 64 - b,
{
    if b >= 64 {
        64
    } else {
        proof {
            assert(b < 64 ==> 1u64 << b >= 1) by (bit_vector);
        }
        if ((1u64 << b) - 1) == mask {
            b
        } else {
            mask_bits_from(mask, b + 1)
        }
    }
}

/// The deterministic parser of the persisted record.
pub open spec fn spec_parse(bytes: Seq<u8>) -> Option<FuncModel> {
    if bytes.len() < 48 {
        None
    } else {
        let seed = spec_u64_from_le_bytes(bytes.subrange(0, 8));
        let l64 = spec_u64_from_le_bytes(bytes.subrange(8, 16));
        let nk64 = spec_u64_from_le_bytes(bytes.subrange(16, 24));
        let mask = spec_u64_from_le_bytes(bytes.subrange(24, 32));
        let seg64 = spec_u64_from_le_bytes(bytes.subrange(32, 40));
        let vl64 = spec_u64_from_le_bytes(bytes.subrange(40, 48));
        let bits = spec_mask_bits(mask);
        if l64 != 128 || bits > 31 || nk64 > usize::MAX as u64 || seg64 >= 0x100000000 || vl64
            > usize::MAX as u64 || bytes.len() != 48 + 8 * (vl64 as int) || (mask as int + 1) * ((
        seg64 as int) * 130) != vl64 as int {
            None
        } else {
            Some(
                FuncModel {
                    seed,
                    l: 128,
                    num_keys: nk64 as usize,
                    chunk_bits: bits as u32,
                    chunk_mask: mask,
                    segment_size: seg64 as usize,
                    values: Seq::new(
                        vl64 as nat,
                        |i: int| spec_u64_from_le_bytes(bytes.subrange(48 + 8 * i, 56 + 8 * i)),
                    ),
                },
            )
        }
    }
}

/// A successful parse always yields a well-formed model.
pub proof fn lemma_parse_wf(bytes: Seq<u8>)
    ensures
        spec_parse(bytes) matches Some(m) ==> m.wf(),
{
    if spec_parse(bytes) is Some {
        let mask = spec_u64_from_le_bytes(bytes.subrange(24, 32));
        lemma_mask_bits_sound(mask, 0);
    }
}

/// When the search stops below 64, the mask really is that many low bits.
proof fn lemma_mask_bits_sound(mask: u64, b: u64)
    requires
        b <= 64,
    ensures
        spec_mask_bits_rec(mask, b) < 64 ==> mask == mask64(spec_mask_bits_rec(mask, b)),
    decreases 64 - b,
{
    if b < 64 && mask64(b) != mask {
        lemma_mask_bits_sound(mask, (b + 1) as u64);
    }
}

/// Append a little-endian `u64` to a byte buffer.
fn push_u64(out: &mut Vec<u8>, x: u64)
    ensures
        final(out)@ == old(out)@ + spec_u64_to_le_bytes(x),
{
    let mut b = u64_to_le_bytes(x);
    out.append(&mut b);
}

/// Read a little-endian `u64` at byte offset `i`.
fn read_u64(bytes: &Vec<u8>, i: usize) -> (r: u64)
    requires
        i + 8 <= bytes@.len(),
    ensures
        r == spec_u64_from_le_bytes(bytes@.subrange(i as int, i as int + 8)),
{
    let n = bytes.len();
    let s = slice_subrange(bytes.as_slice(), i, i + 8);
    u64_from_le_bytes(s)
}

} // verus!

//! Signatures: keyed 128-bit hashing of keys, the order on signatures, and
//! the selection of buckets and chunks from the high bits of a signature.

use vstd::prelude::*;

verus! {

use vstd::wrapping::u64_specs;
use vstd::arithmetic::div_mod::{lemma_mod_multiples_vanish, lemma_mul_mod_noop_left, lemma_small_mod};
use vstd::arithmetic::mul::lemma_mul_is_associative;
use vstd::arithmetic::power2::{pow2, lemma_pow2_adds, lemma_pow2_pos, lemma2_to64, lemma2_to64_rest};
use vstd::arithmetic::div_mod::{lemma_basic_div, lemma_div_denominator, lemma_fundamental_div_mod,
    lemma_multiply_divide_lt};
use vstd::bits::lemma_u64_shr_is_div;

/// A signature `(h0, h1)` paired with the value assigned to its key.
#[derive(Clone, Copy, Debug, PartialEq, Eq, Structural)]
pub struct SigVal {
    pub h0: u64,
    pub h1: u64,
    pub val: u64,
}

/// Lexicographic order on signatures: `(a.h0, a.h1) <= (b.h0, b.h1)`.
pub open spec fn sig_le(a: SigVal, b: SigVal) -> bool {
    a.h0 < b.h0 || (a.h0 == b.h0 && a.h1 <= b.h1)
}

/// Strict lexicographic order on signatures.
pub open spec fn sig_lt(a: SigVal, b: SigVal) -> bool {
    a.h0 < b.h0 || (a.h0 == b.h0 && a.h1 < b.h1)
}

/// Two entries carry the same signature (their values may differ).
pub open spec fn sig_eq(a: SigVal, b: SigVal) -> bool {
    a.h0 == b.h0 && a.h1 == b.h1
}

/// A sequence of entries strictly increases in signature order.
pub open spec fn strictly_sorted(s: Seq<SigVal>) -> bool {
    forall|p: int, q: int| 0 <= p < q < s.len() ==> sig_lt(s[p], s[q])
}

/// A sequence of entries is sorted (not necessarily strictly) in signature order.
pub open spec fn sorted(s: Seq<SigVal>) -> bool {
    forall|p: int, q: int| 0 <= p <= q < s.len() ==> sig_le(s[p], s[q])
}

/// A sequence holds two entries with the same signature.
pub open spec fn has_sig_dup(s: Seq<SigVal>) -> bool {
    exists|p: int, q: int| 0 <= p < q < s.len() && sig_eq(s[p], s[q])
}

/// One round of a 64-bit finaliser: two xorshift-multiply steps and a final
/// xorshift.  A bijection of `u64` with strong avalanche behaviour.
#[verifier::opaque]
pub open spec fn spec_mix64(z: u64) -> u64 {
    let z1 = u64_specs::wrapping_mul(z ^ (z >> 30u64), 0xBF58_476D_1CE4_E5B9);
    let z2 = u64_specs::wrapping_mul(z1 ^ (z1 >> 27u64), 0x94D0_49BB_1331_11EB);
    z2 ^ (z2 >> 31u64)
}

fn mix64(z: u64) -> (r: u64)
    ensures
        r == spec_mix64(z),
{
    proof {
        reveal(spec_mix64);
    }
    let z1 = (z ^ (z >> 30u64)).wrapping_mul(0xBF58_476D_1CE4_E5B9);
    let z2 = (z1 ^ (z1 >> 27u64)).wrapping_mul(0x94D0_49BB_1331_11EB);
    z2 ^ (z2 >> 31u64)
}

/// The keyed 128-bit signature of a key: two independently seeded mixes of
/// the key.  Deterministic in `(key, seed)`; each half is a bijection of the
/// key for a fixed seed.
pub open spec fn spec_sig(key: u64, seed: u64) -> (u64, u64) {
    let a = spec_mix64(seed ^ 0x9E37_79B9_7F4A_7C15);
    let b = spec_mix64(seed ^ 0x6A09_E667_F3BC_C909);
    (spec_mix64(key ^ a), spec_mix64(key ^ b))
}

/// The inverse of the mixer, step by step: each xorshift is undone by a
/// chain of further shifts and each odd multiplier by its modular inverse.
pub open spec fn spec_unmix64(w: u64) -> u64 {
    let z2 = (w ^ (w >> 31u64)) ^ (w >> 62u64);
    let b0 = u64_specs::wrapping_mul(z2, 0x3196_42B2_D24D_8EC3);
    let z1 = (b0 ^ (b0 >> 27u64)) ^ (b0 >> 54u64);
    let a0 = u64_specs::wrapping_mul(z1, 0x96DE_1B17_3F11_9089);
    (a0 ^ (a0 >> 30u64)) ^ (a0 >> 60u64)
}

/// Multiplying by an odd constant and then by its inverse modulo `2^64`
/// gives the argument back.
proof fn lemma_wmul_inverse(x: u64, c: u64, cinv: u64, q: int)
    requires
        (c as int) * (cinv as int) == q * 0x10000000000000000 + 1,
    ensures
        u64_specs::wrapping_mul(u64_specs::wrapping_mul(x, c), cinv) == x,
{
    let m = 0x10000000000000000int;
    let y = u64_specs::wrapping_mul(x, c);
    lemma_mul_mod_noop_left((x as int) * (c as int), cinv as int, m);
    lemma_mul_is_associative(x as int, c as int, cinv as int);
    assert((x as int) * ((c as int) * (cinv as int)) == (x as int) * (q * m) + x) by (nonlinear_arith)
        requires
            (c as int) * (cinv as int) == q * m + 1,
    ;
    assert((x as int) * (q * m) == m * ((x as int) * q)) by (nonlinear_arith);
    lemma_mod_multiples_vanish((x as int) * q, x as int, m);
    lemma_small_mod(x as nat, m as nat);
}

/// Undoing the mixer recovers its argument: the mixer is a bijection.
proof fn lemma_mix64_unmix(z: u64)
    ensures
        spec_unmix64(spec_mix64(z)) == z,
{
    reveal(spec_mix64);
    let a0 = z ^ (z >> 30u64);
    let z1 = u64_specs::wrapping_mul(a0, 0xBF58_476D_1CE4_E5B9);
    let b0 = z1 ^ (z1 >> 27u64);
    let z2 = u64_specs::wrapping_mul(b0, 0x94D0_49BB_1331_11EB);
    assert(((z2 ^ (z2 >> 31u64)) ^ ((z2 ^ (z2 >> 31u64)) >> 31u64)) ^ ((z2 ^ (z2 >> 31u64))
        >> 62u64) == z2) by (bit_vector);
    assert(0x94D0_49BB_1331_11EB * 0x3196_42B2_D24D_8EC3 == 0x1CD336EDA85F1453
        * 0x10000000000000000 + 1) by (nonlinear_arith);
    lemma_wmul_inverse(b0, 0x94D0_49BB_1331_11EB, 0x3196_42B2_D24D_8EC3, 0x1CD336EDA85F1453);
    assert(((z1 ^ (z1 >> 27u64)) ^ ((z1 ^ (z1 >> 27u64)) >> 27u64)) ^ ((z1 ^ (z1 >> 27u64))
        >> 54u64) == z1) by (bit_vector);
    assert(0xBF58_476D_1CE4_E5B9 * 0x96DE_1B17_3F11_9089 == 0x70C3BCA78F27F46C
        * 0x10000000000000000 + 1) by (nonlinear_arith);
    lemma_wmul_inverse(a0, 0xBF58_476D_1CE4_E5B9, 0x96DE_1B17_3F11_9089, 0x70C3BCA78F27F46C);
    assert(((z ^ (z >> 30u64)) ^ ((z ^ (z >> 30u64)) >> 30u64)) ^ ((z ^ (z >> 30u64)) >> 60u64)
        == z) by (bit_vector);
}

/// Two arguments with the same mix are equal.
pub proof fn lemma_mix64_injective(x: u64, y: u64)
    requires
        spec_mix64(x) == spec_mix64(y),
    ensures
        x == y,
{
    lemma_mix64_unmix(x);
    lemma_mix64_unmix(y);
}

/// For one seed, two keys with the same first signature half are equal:
/// that half is a bijection of the key.
pub proof fn lemma_sig_injective(k1: u64, k2: u64, seed: u64)
    requires
        spec_sig(k1, seed).0 == spec_sig(k2, seed).0,
    ensures
        k1 == k2,
{
    let a = spec_mix64(seed ^ 0x9E37_79B9_7F4A_7C15);
    lemma_mix64_injective(k1 ^ a, k2 ^ a);
    assert((k1 ^ a) == (k2 ^ a) ==> k1 == k2) by (bit_vector);
}

/// Hash a key under a seed into its signature.
pub fn sig_of(key: u64, seed: u64) -> (r: (u64, u64))
    ensures
        r == spec_sig(key, seed),
{
    let a = mix64(seed ^ 0x9E37_79B9_7F4A_7C15);
    let b = mix64(seed ^ 0x6A09_E667_F3BC_C909);
    (mix64(key ^ a), mix64(key ^ b))
}

/// Rotate `x` left by `n < 64` bit positions.
pub open spec fn spec_rotl(x: u64, n: u64) -> u64
    recommends
        n < 64,
{
    if n == 0 {
        x
    } else {
        (x << n) | (x >> ((64 - n) as u64))
    }
}

/// The mask with the low `n < 64` bits set.
pub open spec fn mask64(n: u64) -> u64
    recommends
        n < 64,
{
    (((1u64 << n) as u64) - 1) as u64
}

/// The group among `2^bits` groups that the high `bits` of `h0` select,
/// written as the store writes it: rotate left by `bits`, then mask.
pub open spec fn spec_group(h0: u64, bits: u64) -> u64
    recommends
        bits < 64,
{
    spec_rotl(h0, bits) & mask64(bits)
}

/// Select the group of `h0` among `2^bits` groups by its high `bits`.
pub fn group_of(h0: u64, bits: u64) -> (r: u64)
    requires
        bits < 64,
    ensures
        r == spec_group(h0, bits),
        r == spec_top(h0, bits),
        r <= mask64(bits),
{
    proof {
        lemma_group_is_top(h0, bits);
        lemma_group_le_mask(h0, bits);
    }
    let rot = if bits == 0 {
        h0
    } else {
        (h0 << bits) | (h0 >> (64 - bits))
    };
    rot & ((1u64 << bits) - 1)
}

/// The high `bits` of `h0`, read as an integer.
pub open spec fn spec_top(h0: u64, bits: u64) -> u64
    recommends
        bits < 64,
{
    if bits == 0 {
        0u64
    } else {
        h0 >> ((64 - bits) as u64)
    }
}

/// Rotate-and-mask extracts exactly the high `bits` of the word.
pub proof fn lemma_group_is_top(h0: u64, bits: u64)
    requires
        bits < 64,
    ensures
        spec_group(h0, bits) == spec_top(h0, bits),
{
    if bits == 0 {
        assert(h0 & (((1u64 << 0u64) as u64) - 1) as u64 == 0u64) by (bit_vector);
    } else {
        let n = bits;
        assert(((h0 << n) | (h0 >> ((64 - n) as u64))) & ((((1u64 << n) as u64) - 1) as u64) == h0
            >> ((64 - n) as u64)) by (bit_vector)
            requires
                0 < n < 64,
        ;
    }
}

/// The group number is bounded by the mask.
pub proof fn lemma_group_le_mask(h0: u64, bits: u64)
    requires
        bits < 64,
    ensures
        spec_group(h0, bits) <= mask64(bits),
        spec_group(h0, bits) < (1u64 << bits),
{
    let n = bits;
    let r = spec_rotl(h0, n);
    let m = (((1u64 << n) as u64) - 1) as u64;
    assert(n < 64 ==> ((r & ((((1u64 << n) as u64) - 1) as u64)) <= ((((1u64 << n) as u64)
        - 1) as u64)) && (((((1u64 << n) as u64) - 1) as u64) < ((1u64 << n) as u64)))
        by (bit_vector);
}

/// Group numbers follow the order of the words they come from.
pub proof fn lemma_top_monotone(x: u64, y: u64, bits: u64)
    requires
        bits < 64,
        x <= y,
    ensures
        spec_top(x, bits) <= spec_top(y, bits),
{
    if bits > 0 {
        let s = (64 - bits) as u64;
        assert(x <= y && s < 64 ==> (x >> s) <= (y >> s)) by (bit_vector);
    }
}

/// Groups follow the signature order: a later signature never selects an
/// earlier group.
pub proof fn lemma_group_monotone(x: u64, y: u64, bits: u64)
    requires
        bits < 64,
        x <= y,
    ensures
        spec_group(x, bits) <= spec_group(y, bits),
{
    lemma_group_is_top(x, bits);
    lemma_group_is_top(y, bits);
    lemma_top_monotone(x, y, bits);
}

/// The high `bits` of a word are below `2^bits`.
pub proof fn lemma_top_bound(h0: u64, bits: u64)
    requires
        bits < 64,
    ensures
        (spec_top(h0, bits) as nat) < pow2(bits as nat),
{
    if bits == 0 {
        lemma2_to64();
    } else {
        let s = (64 - bits) as u64;
        lemma_u64_shr_is_div(h0, s);
        lemma_pow2_adds(s as nat, bits as nat);
        lemma_pow2_pos(s as nat);
        lemma_pow2_pos(bits as nat);
        lemma2_to64();
        assert(pow2(64) == 0x10000000000000000) by {
            lemma2_to64_rest();
        }
        lemma_multiply_divide_lt(h0 as int, pow2(s as nat) as int, pow2(bits as nat) as int);
    }
}

/// With `c <= b` high bits, the coarser group is the finer group shifted
/// right by the difference.
pub proof fn lemma_top_compose(h0: u64, b: u64, c: u64)
    requires
        c <= b < 64,
    ensures
        spec_top(h0, c) == spec_top(h0, b) >> ((b - c) as u64),
{
    let d = (b - c) as u64;
    if c == 0 {
        lemma_top_bound(h0, b);
        lemma_u64_shr_is_div(spec_top(h0, b), d);
        if b > 0 {
            lemma_basic_div(spec_top(h0, b) as int, pow2(d as nat) as int);
        }
    } else if c == b {
        assert(spec_top(h0, b) >> 0u64 == spec_top(h0, b)) by (bit_vector);
    } else {
        let sb = (64 - b) as u64;
        let sc = (64 - c) as u64;
        lemma_u64_shr_is_div(h0, sb);
        lemma_u64_shr_is_div(h0, sc);
        lemma_u64_shr_is_div(spec_top(h0, b), d);
        lemma_pow2_pos(sb as nat);
        lemma_pow2_pos(d as nat);
        lemma_div_denominator(h0 as int, pow2(sb as nat) as int, pow2(d as nat) as int);
        lemma_pow2_adds(sb as nat, d as nat);
    }
}

/// A shifted word equals `k` exactly when the word lies in the `k`-th block
/// of size `2^d`.
pub proof fn lemma_shr_block(x: u64, d: u64, k: u64)
    requires
        d < 64,
    ensures
        (x >> d) == k <==> ((k as int) * (pow2(d as nat) as int) <= (x as int) && (x as int) < ((
        k as int) + 1) * (pow2(d as nat) as int)),
{
    lemma_u64_shr_is_div(x, d);
    lemma_pow2_pos(d as nat);
    let n = pow2(d as nat) as int;
    lemma_fundamental_div_mod(x as int, n);
    let q = (x as int) / n;
    let r = (x as int) % n;
    assert((x as int == n * q + r && 0 <= r < n && n > 0) ==> (q == k <==> ((k as int) * n <= (
    x as int) && (x as int) < ((k as int) + 1) * n))) by (nonlinear_arith);
}

/// For `c <= b` both small, a group at `b` bits equal to `j` pins the group
/// at `c` bits to `j` shifted down, and conversely the `c`-bit group `k`
/// collects exactly the `b`-bit groups of the `k`-th block of `2^(b-c)`.
pub proof fn lemma_group_block(h0: u64, b: u64, c: u64, k: u64)
    requires
        c <= b <= 30,
    ensures
        spec_group(h0, c) == k <==> ((k as int) * (pow2((b - c) as nat) as int) <= (spec_group(
            h0,
            b,
        ) as int) && (spec_group(h0, b) as int) < ((k as int) + 1) * (pow2((b - c) as nat) as int)),
{
    lemma_group_is_top(h0, b);
    lemma_group_is_top(h0, c);
    lemma_top_compose(h0, b, c);
    lemma_shr_block(spec_top(h0, b), (b - c) as u64, k);
}

} // verus!

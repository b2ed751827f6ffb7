//! The builder: hash the keys under a fresh random seed, group the entries
//! into chunks, peel and assign every chunk, and check the finished
//! function against every input pair before handing it out.  A failed
//! attempt — a duplicate signature or an unpeelable chunk — is retried with
//! a fresh seed up to the retry budget.

use vstd::prelude::*;

verus! {

use vstd::multiset::Multiset;
use vstd::pervasive::VecAdditionalExecFns;
use crate::edge::{edge_vertices, spec_edge0, spec_edge1, spec_edge2};
use crate::error::BuildError;
use crate::func::{model_get, VFunc};
use crate::hash::{
    group_of, has_sig_dup, mask64, sig_eq, sig_le, sig_of, sorted, spec_sig, SigVal,
};
use crate::solve::solve_chunk;
use crate::solve::zero_vec;
use crate::utils::sig_store::{sort_by_sig, SigStore};

/// Numerator and denominator of the segment-size expansion: the vertex
/// count of a chunk exceeds its edge count by this factor.  The fuse
/// layout peels with ~12% headroom asymptotically; this implementation
/// takes 23%, enough that even an uncoupled random 3-hypergraph stays
/// below its peeling threshold, so retries stay rare at every size.
pub const EXPANSION_NUM: u128 = 123;

/// See [`EXPANSION_NUM`].
pub const EXPANSION_DEN: u128 = 100;

/// Smallest segment size: tiny segments leave the three endpoints too few
/// distinct positions, and identical edges defeat peeling.
pub const MIN_SEGMENT_SIZE: usize = 64;

/// Two keys of the input are equal.
pub open spec fn has_dup_key(keys: Seq<u64>) -> bool {
    exists|i: int, j: int| 0 <= i < j < keys.len() && keys[i] == keys[j]
}

/// Relies on rand::random: a fresh 64-bit seed from the thread-local
/// generator; nothing is assumed about its value.
#[verifier::external_body]
fn random_seed() -> u64 {
    rand::random::<u64>()
}

/// Configuration of a build: whether to group through a [`SigStore`], how
/// many attempts to make, and how many buckets the store uses.
pub struct VFuncBuilder {
    /// Group entries through a [`SigStore`] rather than a plain buffer.
    pub offline: bool,
    /// How many seeds to try before giving up.
    pub max_retries: usize,
    /// The store scatters entries over `2^bucket_high_bits` buckets.
    pub bucket_high_bits: u32,
}

impl Default for VFuncBuilder {
    /// The default build: in-memory grouping, a few retries, 256 buckets.
    fn default() -> (r: VFuncBuilder)
        ensures
            r.offline == false,
            r.max_retries == 8,
            r.bucket_high_bits == 8,
    {
        VFuncBuilder { offline: false, max_retries: 8, bucket_high_bits: 8 }
    }
}

impl VFuncBuilder {
    /// Choose between the signature store and the plain buffer.
    pub fn offline(self, offline: bool) -> (r: VFuncBuilder)
        ensures
            r.offline == offline,
            r.max_retries == self.max_retries,
            r.bucket_high_bits == self.bucket_high_bits,
    {
        VFuncBuilder { offline, ..self }
    }

    /// Build the static function for `keys[i] -> values[i]`.
    ///
    /// On success every input key queries back to its value.  Equal input
    /// keys always surface as `DuplicateKey` after the retry budget; a
    /// keyset too large for the edge-index packing is `Capacity`; a chunk
    /// that kept a 2-core through every retry is `Unpeelable`.
    pub fn build(&self, keys: &Vec<u64>, values: &Vec<u64>) -> (r: Result<VFunc, BuildError>)
        requires
            keys@.len() == values@.len(),
            self.bucket_high_bits <= 30,
        ensures
            match r {
                Ok(f) => {
                    &&& f@.wf()
                    &&& f@.num_keys == keys@.len()
                    &&& forall|i: int|
                        0 <= i < keys@.len() ==> model_get(f@, #[trigger] keys@[i]) == values@[i]
                    &&& (keys@.len() == 0 ==> f@.values.len() == 0)
                },
                Err(e) => e == BuildError::DuplicateKey || e == BuildError::Unpeelable || e
                    == BuildError::Capacity,
            },
            keys@.len() == 0 ==> r is Ok,
            keys@.len() == 1 ==> r is Ok,
            keys@.len() > 0x003F_FFFF_FFFF_FFFF ==> r == Result::<VFunc, BuildError>::Err(
                BuildError::Capacity,
            ),
            keys@.len() <= 0x003F_FFFF_FFFF_FFFF && has_dup_key(keys@) ==> r == Result::<
                VFunc,
                BuildError,
            >::Err(BuildError::DuplicateKey),
            r == Result::<VFunc, BuildError>::Err(BuildError::DuplicateKey) ==> has_dup_key(keys@),
    {
        let n = keys.len();
        if n == 0 {
            let f = VFunc {
                seed: 0,
                l: 128,
                num_keys: 0,
                chunk_bits: 0,
                chunk_mask: 0,
                segment_size: 0,
                values: Vec::new(),
            };
            proof {
                assert((((1u64 << 0u64) as u64) - 1) as u64 == 0u64) by (bit_vector);
                assert((1int) * ((0int) * 130) == 0) by (nonlinear_arith);
                assert(f@.values.len() == (f@.chunk_mask as int + 1) * ((f@.segment_size as int)
                    * 130));
            }
            return Ok(f);
        }
        if n as u64 > 0x003F_FFFF_FFFF_FFFFu64 {
            return Err(BuildError::Capacity);
        }
        if n == 1 {
            // a single edge always peels: assign its first endpoint the
            // value and leave the other two cells zero
            let seed = random_seed();
            let s = sig_of(keys[0], seed);
            let seg: usize = MIN_SEGMENT_SIZE;
            let mut cells = zero_vec(130 * MIN_SEGMENT_SIZE);
            let e = edge_vertices(s.0, s.1, seg);
            let v0 = values[0];
            cells.set(e.0, v0);
            let f = VFunc {
                seed,
                l: 128,
                num_keys: 1,
                chunk_bits: 0,
                chunk_mask: 0,
                segment_size: seg,
                values: cells,
            };
            proof {
                assert((((1u64 << 0u64) as u64) - 1) as u64 == 0u64) by (bit_vector);
                let sspec = spec_sig(keys@[0], seed);
                crate::hash::lemma_group_le_mask(sspec.0, 0);
                assert(crate::hash::spec_group(sspec.0, 0) == 0);
                assert(f@.values[spec_edge0(sspec.0, seg as int)] == values@[0]);
                assert(f@.values[spec_edge1(sspec.0, sspec.1, seg as int)] == 0u64);
                assert(f@.values[spec_edge2(sspec.0, sspec.1, seg as int)] == 0u64);
                let vv = values@[0];
                assert((vv ^ 0u64) ^ 0u64 == vv) by (bit_vector);
                let m = f@;
                assert(m.values.len() == 8320);
                let sm = spec_sig(keys@[0], m.seed);
                assert(sm == sspec);
                let ch = crate::hash::spec_group(sm.0, m.chunk_bits as u64) as int;
                assert(m.chunk_bits as u64 == 0u64);
                assert(ch == 0);
                let segi = m.segment_size as int;
                assert(segi == 64);
                let off = ch * (segi * 130);
                assert(off == 0);
                assert(m.values[off + spec_edge0(sm.0, segi)] == vv);
                assert(m.values[off + spec_edge1(sm.0, sm.1, segi)] == 0u64);
                assert(m.values[off + spec_edge2(sm.0, sm.1, segi)] == 0u64);
                assert(model_get(f@, keys@[0]) == values@[0]);
                assert(f@.wf());
            }
            return Ok(f);
        }
        let tries = if self.max_retries == 0 {
            1
        } else {
            self.max_retries
        };
        let mut last = BuildError::Unpeelable;
        let mut t: usize = 0;
        while t < tries
            invariant
                keys@.len() == values@.len(),
                n == keys@.len(),
                1 <= n <= 0x003F_FFFF_FFFF_FFFF,
                self.bucket_high_bits <= 30,
                last == BuildError::DuplicateKey || last == BuildError::Unpeelable || last
                    == BuildError::Capacity,
                t > 0 && has_dup_key(keys@) ==> last == BuildError::DuplicateKey,
                last == BuildError::DuplicateKey ==> has_dup_key(keys@),
                tries >= 1,
            decreases tries - t,
        {
            let seed = random_seed();
            match self.attempt(keys, values, seed) {
                Ok(f) => {
                    return Ok(f);
                },
                Err(e) => {
                    last = e;
                },
            }
            t = t + 1;
        }
        Err(last)
    }

    /// One attempt under one seed: hash, reject duplicate signatures,
    /// group into chunks, solve every chunk, and verify the result on
    /// every input pair.
    fn attempt(&self, keys: &Vec<u64>, values: &Vec<u64>, seed: u64) -> (r: Result<
        VFunc,
        BuildError,
    >)
        requires
            keys@.len() == values@.len(),
            1 <= keys@.len() <= 0x003F_FFFF_FFFF_FFFF,
            self.bucket_high_bits <= 30,
        ensures
            match r {
                Ok(f) => {
                    &&& f@.wf()
                    &&& f@.num_keys == keys@.len()
                    &&& forall|i: int|
                        0 <= i < keys@.len() ==> model_get(f@, #[trigger] keys@[i]) == values@[i]
                },
                Err(e) => e == BuildError::DuplicateKey || e == BuildError::Unpeelable || e
                    == BuildError::Capacity,
            },
            has_dup_key(keys@) ==> r == Result::<VFunc, BuildError>::Err(BuildError::DuplicateKey),
            r == Result::<VFunc, BuildError>::Err(BuildError::DuplicateKey) ==> has_dup_key(keys@),
    {
        let n = keys.len();

        // hash every pair into a signature entry
        let mut sigs: Vec<SigVal> = Vec::new();
        let mut i: usize = 0;
        while i < n
            invariant
                i <= n,
                n == keys@.len(),
                keys@.len() == values@.len(),
                sigs@.len() == i,
                forall|j: int|
                    0 <= j < i ==> (#[trigger] sigs@[j]) == (SigVal {
                        h0: spec_sig(keys@[j], seed).0,
                        h1: spec_sig(keys@[j], seed).1,
                        val: values@[j],
                    }),
            decreases n - i,
        {
            let s = sig_of(keys[i], seed);
            sigs.push(SigVal { h0: s.0, h1: s.1, val: values[i] });
            i = i + 1;
        }

        // reject duplicate signatures on a sorted copy
        let mut sorted_sigs = clone_sigs(&sigs);
        sort_by_sig(&mut sorted_sigs);
        proof {
            if has_dup_key(keys@) {
                let (di, dj) = choose|di: int, dj: int|
                    0 <= di < dj < keys@.len() && keys@[di] == keys@[dj];
                assert(sig_eq(sigs@[di], sigs@[dj]));
                assert(has_sig_dup(sigs@));
                lemma_sig_dup_transport(sigs@, sorted_sigs@);
                lemma_sorted_dup_adjacent(sorted_sigs@);
            }
        }
        let mut dup = false;
        let mut q: usize = 1;
        while q < sorted_sigs.len()
            invariant
                1 <= q,
                q <= sorted_sigs@.len() || sorted_sigs@.len() <= 1,
                dup <==> exists|a: int|
                    0 <= a && a + 1 < q && a + 1 < sorted_sigs@.len() && sig_eq(
                        #[trigger] sorted_sigs@[a],
                        sorted_sigs@[a + 1],
                    ),
            decreases sorted_sigs@.len() - q,
        {
            if sorted_sigs[q - 1].h0 == sorted_sigs[q].h0 && sorted_sigs[q - 1].h1
                == sorted_sigs[q].h1 {
                dup = true;
                proof {
                    assert(sig_eq(sorted_sigs@[q as int - 1], sorted_sigs@[q as int - 1 + 1]));
                }
            }
            q = q + 1;
        }
        if dup {
            proof {
                broadcast use vstd::seq_lib::group_to_multiset_ensures;

                let a = choose|a: int|
                    0 <= a && a + 1 < sorted_sigs@.len() && sig_eq(
                        #[trigger] sorted_sigs@[a],
                        sorted_sigs@[a + 1],
                    );
                assert(has_sig_dup(sorted_sigs@));
                lemma_sig_dup_transport(sorted_sigs@, sigs@);
                let (dp, dq) = choose|dp: int, dq: int|
                    0 <= dp < dq < sigs@.len() && sig_eq(sigs@[dp], sigs@[dq]);
                crate::hash::lemma_sig_injective(keys@[dp], keys@[dq], seed);
                assert(keys@[dp] == keys@[dq]);
                assert(has_dup_key(keys@));
            }
            return Err(BuildError::DuplicateKey);
        }
        proof {
            assert(!has_dup_key(keys@)) by {
                if has_dup_key(keys@) {
                    let a = choose|a: int|
                        0 <= a && a + 1 < sorted_sigs@.len() && sig_eq(
                            #[trigger] sorted_sigs@[a],
                            sorted_sigs@[a + 1],
                        );
                    assert(0 <= a && a + 1 < q && a + 1 < sorted_sigs@.len() && sig_eq(
                        sorted_sigs@[a],
                        sorted_sigs@[a + 1],
                    ));
                    assert(false);
                }
            }
        }

        // group into chunks
        let cb = chunk_bits_for(n);
        let num_chunks: usize = 1usize << cb;
        proof {
            lemma_chunk_count(cb);
        }
        let mut chunks: Vec<Vec<SigVal>> = Vec::new();
        let mut z: usize = 0;
        while z < num_chunks
            invariant
                z <= num_chunks,
                chunks@.len() == z,
            decreases num_chunks - z,
        {
            chunks.push(Vec::new());
            z = z + 1;
        }
        if self.offline {
            let mut store = SigStore::new(self.bucket_high_bits, cb);
            let mut p: usize = 0;
            proof {
                broadcast use vstd::seq_lib::group_to_multiset_ensures;

                vstd::multiset::lemma_multiset_empty_len(sigs@.take(0).to_multiset());
            }
            while p < sigs.len()
                invariant
                    p <= sigs@.len(),
                    sigs@.len() <= 0x003F_FFFF_FFFF_FFFF,
                    store.wf(),
                    store.spec_num_keys() == p,
                    store.spec_bucket_bits() == self.bucket_high_bits,
                    store.spec_max_chunk_bits() == cb,
                    store.spec_contents() == sigs@.take(p as int).to_multiset(),
                decreases sigs@.len() - p,
            {
                store.push(&sigs[p]);
                proof {
                    broadcast use vstd::seq_lib::group_to_multiset_ensures;

                    assert(sigs@.take(p as int + 1) =~= sigs@.take(p as int).push(
                        sigs@[p as int],
                    ));
                }
                p = p + 1;
            }
            proof {
                assert(sigs@.take(sigs@.len() as int) =~= sigs@);
            }
            let mut cs = match store.into_store(cb) {
                Ok(pair) => pair.0,
                Err(_) => {
                    return Err(BuildError::Capacity);
                },
            };
            let total_chunks = 1usize << cb;
            let mut left: usize = total_chunks;
            while left > 0
                invariant
                    cs.wf(),
                    chunks@.len() == num_chunks,
                    cs.spec_chunks_left() == left,
                    left <= total_chunks,
                    n == keys@.len(),
                    sigs@.len() == n,
                    keys@.len() == values@.len(),
                    forall|j: int|
                        0 <= j < n ==> (#[trigger] sigs@[j]) == (SigVal {
                            h0: spec_sig(keys@[j], seed).0,
                            h1: spec_sig(keys@[j], seed).1,
                            val: values@[j],
                        }),
                    forall|x: SigVal|
                        #[trigger] cs.spec_contents().count(x) <= sigs@.to_multiset().count(x),
                    !has_dup_key(keys@),
                decreases left,
            {
                let ghost old_cs_contents = cs.spec_contents();
                let it_opt = cs.next();
                let mut it = it_opt.unwrap();
                proof {
                    broadcast use vstd::multiset::group_multiset_axioms;

                    assert forall|x: SigVal| #[trigger] it.spec_contents().count(x)
                        <= sigs@.to_multiset().count(x) by {
                        assert(old_cs_contents.count(x) == cs.spec_contents().count(x)
                            + it.spec_contents().count(x));
                    }
                    assert forall|x: SigVal| #[trigger] cs.spec_contents().count(x)
                        <= sigs@.to_multiset().count(x) by {
                        assert(old_cs_contents.count(x) == cs.spec_contents().count(x)
                            + it.spec_contents().count(x));
                        assert(it.spec_contents().count(x) >= 0);
                    }
                }
                let g = it.chunks_left();
                let mut lleft: usize = g;
                while lleft > 0
                    invariant
                        it.wf(),
                        chunks@.len() == num_chunks,
                        it.spec_chunks_left() == lleft,
                        lleft <= it.spec_num_chunks(),
                        n == keys@.len(),
                        sigs@.len() == n,
                        keys@.len() == values@.len(),
                        forall|j: int|
                            0 <= j < n ==> (#[trigger] sigs@[j]) == (SigVal {
                                h0: spec_sig(keys@[j], seed).0,
                                h1: spec_sig(keys@[j], seed).1,
                                val: values@[j],
                            }),
                        forall|x: SigVal|
                            #[trigger] it.spec_contents().count(x) <= sigs@.to_multiset().count(x),
                        !has_dup_key(keys@),
                    decreases lleft,
                {
                    let ghost it_prev = it;
                    let pair_opt = it.next();
                    proof {
                        assert(it.spec_data() == it_prev.spec_data());
                        assert forall|x: SigVal| #[trigger] it.spec_contents().count(x)
                            <= sigs@.to_multiset().count(x) by {
                            assert(it.spec_contents() == it_prev.spec_contents());
                            assert(it_prev.spec_contents().count(x) <= sigs@.to_multiset().count(
                                x,
                            ));
                        }
                    }
                    let pair = pair_opt.unwrap();
                    let k = pair.0;
                    let block = pair.1;
                    if k == usize::MAX {
                        proof {
                            if has_sig_dup(it.spec_data()) {
                                assert forall|x: SigVal|
                                    #[trigger] it.spec_data().to_multiset().count(x)
                                        <= sigs@.to_multiset().count(x) by {
                                    assert(it.spec_contents().count(x) <= sigs@.to_multiset().count(
                                        x,
                                    ));
                                }
                                lemma_sig_dup_transport(it.spec_data(), sigs@);
                                let (dp, dq) = choose|dp: int, dq: int|
                                    0 <= dp < dq < sigs@.len() && sig_eq(sigs@[dp], sigs@[dq]);
                                crate::hash::lemma_sig_injective(keys@[dp], keys@[dq], seed);
                                assert(has_dup_key(keys@));
                            }
                            assert(false);
                        }
                        return Err(BuildError::DuplicateKey);
                    }
                    if k < num_chunks {
                        chunks.set(k, block);
                    }
                    lleft = lleft - 1;
                }
                assert(g <= left);
                left = left - g;
            }
        } else {
            // plain buffer: scatter the sorted entries over the chunks
            let mut p: usize = 0;
            while p < sorted_sigs.len()
                invariant
                    p <= sorted_sigs@.len(),
                    chunks@.len() == num_chunks,
                    num_chunks == (1usize << cb),
                    cb <= 30,
                decreases sorted_sigs@.len() - p,
            {
                let sv = sorted_sigs[p];
                proof {
                    lemma_chunk_index(sv.h0, cb);
                }
                let k = group_of(sv.h0, cb as u64) as usize;
                chunks[k].push(sv);
                p = p + 1;
            }
        }

        // segment size: headroom over the largest chunk, chosen so the
        // edge density stays below the peeling threshold of a random
        // 3-hypergraph whatever the chunk size
        let mut mc: usize = 0;
        let mut z2: usize = 0;
        while z2 < chunks.len()
            invariant
                z2 <= chunks@.len(),
            decreases chunks@.len() - z2,
        {
            if chunks[z2].len() > mc {
                mc = chunks[z2].len();
            }
            z2 = z2 + 1;
        }
        let seg128 = ((mc as u128 * EXPANSION_NUM + (EXPANSION_DEN - 1)) / EXPANSION_DEN + 129) / 130;
        if seg128 >= 0x100000000u128 {
            return Err(BuildError::Capacity);
        }
        let seg: usize = if seg128 < MIN_SEGMENT_SIZE as u128 {
            MIN_SEGMENT_SIZE
        } else {
            seg128 as usize
        };
        let nv128 = 130u128 * (seg as u128);
        proof {
            assert(nv128 < 0x10000000000u128);
            assert((num_chunks as u128) * nv128 < 0x100000000000000000000u128) by (nonlinear_arith)
                requires
                    (num_chunks as u128) <= 0x40000000u128,
                    nv128 < 0x10000000000u128,
            ;
        }
        let total128 = (num_chunks as u128) * nv128;
        if total128 > usize::MAX as u128 {
            return Err(BuildError::Capacity);
        }
        proof {
            assert(nv128 <= total128) by (nonlinear_arith)
                requires
                    (num_chunks as u128) >= 1,
                    nv128 >= 0,
                    total128 == (num_chunks as u128) * nv128,
            ;
            assert((num_chunks as int) * ((130 * (seg as int))) == total128 as int)
                by (nonlinear_arith)
                requires
                    total128 == (num_chunks as u128) * nv128,
                    nv128 == 130u128 * (seg as u128),
                    (seg as u128) == (seg as int),
                    (num_chunks as u128) == (num_chunks as int),
            ;
        }
        let nv: usize = 130 * seg;
        let total: usize = num_chunks * nv;

        // solve every chunk into its slice of the cell array
        let mut cells: Vec<u64> = zero_vec(total);
        let mut k2: usize = 0;
        while k2 < num_chunks
            invariant
                k2 <= num_chunks,
                chunks@.len() == num_chunks,
                cells@.len() == total,
                total == num_chunks * nv,
                nv == 130 * seg,
                1 <= seg < 0x100000000,
                130 * seg <= usize::MAX,
                !has_dup_key(keys@),
            decreases num_chunks - k2,
        {
            let chunk = &chunks[k2];
            if chunk.len() as u64 > 0x003F_FFFF_FFFF_FFFFu64 {
                return Err(BuildError::Capacity);
            }
            let cv = match solve_chunk(chunk, seg) {
                Ok(cv) => cv,
                Err(e) => {
                    return Err(
                        if e == BuildError::Capacity {
                            BuildError::Capacity
                        } else {
                            BuildError::Unpeelable
                        },
                    );
                },
            };
            proof {
                assert((k2 as int) * (nv as int) + nv as int <= (num_chunks as int) * (nv as int))
                    by (nonlinear_arith)
                    requires
                        0 <= (k2 as int) && (k2 as int) < (num_chunks as int),
                        nv as int >= 0,
                ;
                assert((k2 as int) * (nv as int) >= 0) by (nonlinear_arith)
                    requires
                        k2 as int >= 0 && nv as int >= 0,
                ;
            }
            let base = k2 * nv;
            let mut t2: usize = 0;
            while t2 < nv
                invariant
                    t2 <= nv,
                    cv@.len() == nv,
                    cells@.len() == total,
                    base + nv <= total,
                decreases nv - t2,
            {
                cells.set(base + t2, cv[t2]);
                t2 = t2 + 1;
            }
            k2 = k2 + 1;
        }

        // package and verify on every input pair
        proof {
            lemma_mask_of_bits(cb);
            assert(((num_chunks as int)) * ((seg as int) * 130) == (num_chunks as int) * (nv as int))
                by (nonlinear_arith)
                requires
                    nv as int == 130 * (seg as int),
            ;
        }
        let f = VFunc {
            seed,
            l: 128,
            num_keys: n,
            chunk_bits: cb,
            chunk_mask: (1u64 << cb) - 1,
            segment_size: seg,
            values: cells,
        };
        let mut v: usize = 0;
        while v < n
            invariant
                v <= n,
                n == keys@.len(),
                keys@.len() == values@.len(),
                f@.wf(),
                f@.num_keys == n,
                !has_dup_key(keys@),
                forall|j: int| 0 <= j < v ==> model_get(f@, #[trigger] keys@[j]) == values@[j],
            decreases n - v,
        {
            if f.get(keys[v]) != values[v] {
                return Err(BuildError::Unpeelable);
            }
            v = v + 1;
        }
        Ok(f)
    }
}

/// Copy a vector of entries.
fn clone_sigs(v: &Vec<SigVal>) -> (r: Vec<SigVal>)
    ensures
        r@ == v@,
{
    let mut r: Vec<SigVal> = Vec::new();
    let mut i: usize = 0;
    while i < v.len()
        invariant
            i <= v@.len(),
            r@ == v@.take(i as int),
        decreases v@.len() - i,
    {
        r.push(v[i]);
        proof {
            assert(v@.take(i as int + 1) =~= v@.take(i as int).push(v@[i as int]));
        }
        i = i + 1;
    }
    proof {
        assert(v@.take(v@.len() as int) =~= v@);
    }
    r
}

/// The number of chunks fits a vector index.
proof fn lemma_chunk_count(cb: u32)
    requires
        cb <= 30,
    ensures
        1 <= (1usize << cb),
        (1usize << cb) <= 0x40000000usize,
{
    let c = cb as u64;
    assert((1usize << cb) as u64 == (1u64 << c) && 1u64 <= (1u64 << c) && (1u64 << c)
        <= 0x40000000u64) by (bit_vector)
        requires
            c <= 30 && c == cb,
    ;
}

/// A chunk index selected by at most 30 bits stays below the chunk count.
proof fn lemma_chunk_index(h0: u64, cb: u32)
    requires
        cb <= 30,
    ensures
        crate::hash::spec_group(h0, cb as u64) < (1usize << cb) as u64,
{
    crate::hash::lemma_group_le_mask(h0, cb as u64);
    let c = cb as u64;
    assert((1usize << cb) as u64 == (1u64 << c)) by (bit_vector)
        requires
            c <= 30 && c == cb,
    ;
}

/// The stored chunk mask is the low-bits mask of the chunk-bit count.
proof fn lemma_mask_of_bits(cb: u32)
    requires
        cb <= 30,
    ensures
        ((1u64 << cb) - 1) as u64 == mask64(cb as u64),
        (((1u64 << cb) - 1) as u64) as int + 1 == (1usize << cb) as int,
        (1u64 << cb) >= 1,
{
    let c = cb as u64;
    assert((1u64 << c) >= 1 && ((((1u64 << c) as u64) - 1) as u64) as int + 1 == ((1u64
        << c) as u64) as int && (1usize << cb) as u64 == (1u64 << c)) by (bit_vector)
        requires
            c <= 30 && c == cb,
    ;
}

/// Pick the number of chunk-defining bits from the keyset size: none up to
/// `2^21` keys, and beyond that an integer (Q16 fixed-point) approximation
/// of `ceil(log2((t - ln t)/ln 2))` with `t = n * eps^2 / 2` and
/// `eps = 0.001`, clamped to `[1, 30]`.
pub fn chunk_bits_for(n: usize) -> (r: u32)
    ensures
        n <= 0x200000 ==> r == 0,
        n > 0x200000 ==> 1 <= r <= 30,
{
    if n <= 0x200000 {
        return 0;
    }
    proof {
        assert((n as u128) * 65536 / 2_000_000 < 0x1000000000000000u128) by (nonlinear_arith)
            requires
                (n as u128) < 0x10000000000000000u128,
        ;
    }
    let t_q16: u64 = ((n as u128 * 65536) / 2_000_000) as u64;
    let lg = log2_q16(if t_q16 == 0 {
        1
    } else {
        t_q16
    });
    let ln_q16: u64 = ((lg as u128 * 45426) / 65536) as u64;
    proof {
        assert((lg as u128) * 45426 / 65536 <= lg as u128) by (nonlinear_arith);
    }
    let num: u64 = if t_q16 > ln_q16 {
        t_q16 - ln_q16
    } else {
        65536
    };
    assert(num < 0x1000000000000000u64);
    proof {
        assert((num as u128) * 65536 / 45426 < 0x10000000000000000u128) by (nonlinear_arith)
            requires
                (num as u128) < 0x1000000000000000u128,
        ;
    }
    let x: u64 = (((num as u128) * 65536) / 45426) as u64;
    let mut cb: u32 = 0;
    while cb < 30 && (65536u64 << cb) < x
        invariant
            cb <= 30,
        decreases 30 - cb,
    {
        cb = cb + 1;
    }
    if cb == 0 {
        1
    } else {
        cb
    }
}

/// Q16 fixed-point log2 of a Q16 fixed-point argument, by bit search and
/// sixteen squaring rounds.  Only its range matters to callers.
fn log2_q16(v: u64) -> (r: u64)
    requires
        v >= 1,
    ensures
        r <= 0x500000,
{
    let mut x: u64 = v;
    let mut ip: u64 = 0;
    while ip < 64 && x >= 131072
        invariant
            ip <= 64,
            x >= 1,
        decreases 64 - ip,
    {
        x = x >> 1u64;
        if x == 0 {
            x = 1;
        }
        ip = ip + 1;
    }
    proof {
        assert(1u64 << 0u32 == 1u64) by (bit_vector);
    }
    let mut f: u64 = 0;
    let mut y: u64 = if x >= 131072 {
        131071
    } else {
        x
    };
    let mut round: u32 = 0;
    while round < 16
        invariant
            round <= 16,
            y < 131072,
            f < (1u64 << round),
        decreases 16 - round,
    {
        proof {
            assert(y < 131072 ==> (y * y) < 0x400000000u64) by (nonlinear_arith);
            assert(round < 16 ==> ((1u64 << ((round + 1) as u32)) == 2 * (1u64 << round)) && (1u64
                << round) <= 65536) by (bit_vector)
                requires
                    round < 16,
            ;
        }
        let prod = y * y;
        proof {
            assert(prod < 0x400000000u64 ==> (prod >> 16u64) < 0x40000u64) by (bit_vector);
        }
        let y2 = prod >> 16u64;
        if y2 >= 131072 {
            f = 2 * f + 1;
            y = y2 >> 1u64;
            proof {
                assert(y2 < 0x40000u64 ==> (y2 >> 1u64) < 0x20000u64) by (bit_vector);
            }
        } else {
            f = 2 * f;
            y = if y2 == 0 {
                1
            } else {
                y2
            };
        }
        round = round + 1;
    }
    proof {
        assert((1u64 << 16u32) == 65536) by (bit_vector);
    }
    if ip > 16 {
        (ip - 16) * 65536 + f
    } else {
        f
    }
}

/// Reordering a sequence of entries cannot hide a duplicated signature.
proof fn lemma_sig_dup_transport(a: Seq<SigVal>, b: Seq<SigVal>)
    requires
        forall|x: SigVal| #[trigger] a.to_multiset().count(x) <= b.to_multiset().count(x),
        has_sig_dup(a),
    ensures
        has_sig_dup(b),
{
    broadcast use vstd::seq_lib::group_to_multiset_ensures;
    broadcast use vstd::multiset::group_multiset_axioms;

    let (p, q) = choose|p: int, q: int| 0 <= p < q < a.len() && sig_eq(a[p], a[q]);
    let x = a[p];
    let y = a[q];
    if x == y {
        // two copies of one entry: its multiplicity is at least two
        let a2 = a.remove(p);
        assert(a2[q - 1] == a[q]);
        assert(a2.contains(x));
        assert(a.contains(x));
        assert(a.to_multiset().count(x) > 0);
        assert(a2.to_multiset().count(x) > 0);
        assert(a2.to_multiset() == a.to_multiset().remove(x));
        assert(Multiset::singleton(x).count(x) == 1);
        assert(a.to_multiset().remove(x).count(x) == a.to_multiset().count(x) - 1);
        assert(a.to_multiset().count(x) >= 2);
        assert(b.to_multiset().count(x) >= 2);
        assert(b.contains(x));
        let pb = choose|pb: int| 0 <= pb < b.len() && b[pb] == x;
        let b2 = b.remove(pb);
        assert(b2.to_multiset() == b.to_multiset().remove(x));
        assert(b2.to_multiset().count(x) >= 1);
        assert(b2.contains(x));
        let qb = choose|qb: int| 0 <= qb < b2.len() && b2[qb] == x;
        if qb < pb {
            assert(b[qb] == b2[qb]);
            assert(sig_eq(b[qb], b[pb]));
        } else {
            assert(b[qb + 1] == b2[qb]);
            assert(sig_eq(b[pb], b[qb + 1]));
        }
    } else {
        assert(a.contains(x));
        assert(a.contains(y));
        assert(a.to_multiset().count(x) > 0);
        assert(a.to_multiset().count(y) > 0);
        assert(b.to_multiset().count(x) > 0);
        assert(b.to_multiset().count(y) > 0);
        assert(b.contains(x));
        assert(b.contains(y));
        let pb = choose|pb: int| 0 <= pb < b.len() && b[pb] == x;
        let qb = choose|qb: int| 0 <= qb < b.len() && b[qb] == y;
        if pb < qb {
            assert(sig_eq(b[pb], b[qb]));
        } else {
            assert(sig_eq(b[qb], b[pb]));
        }
    }
}

/// In a sorted run a duplicated signature shows up in adjacent entries.
proof fn lemma_sorted_dup_adjacent(s: Seq<SigVal>)
    requires
        sorted(s),
        has_sig_dup(s),
    ensures
        exists|a: int| 0 <= a && a + 1 < s.len() && sig_eq(#[trigger] s[a], s[a + 1]),
{
    let (p, q) = choose|p: int, q: int| 0 <= p < q < s.len() && sig_eq(s[p], s[q]);
    assert(sig_le(s[p], s[p + 1]));
    assert(sig_le(s[p + 1], s[q]));
    assert(sig_eq(s[p], s[p + 1]));
}

} // verus!

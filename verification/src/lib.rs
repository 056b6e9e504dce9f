//! The in-memory substrate of a blocky voxel world: palette-compressed bulk
//! storage for chunk contents, compact local indexing inside a chunk,
//! z-order (Morton) packed 3D coordinates, and a sparse, unbounded octree of
//! per-chunk aggregate state with bottom-up updates and best-first search.

use vstd::prelude::*;

pub mod bits;
pub mod block_data;
pub mod chunk;
pub mod chunked_octree;
pub mod chunk_storage;
pub mod palette_store;
pub mod z_order;
pub mod z_order_store;

use vstd::arithmetic::power2::{
    lemma2_to64, lemma_pow2_adds, lemma_pow2_strictly_increases, pow2,
};

verus! {

/// Floor of the base-two logarithm of a positive integer.
pub fn integer_log2(value: usize) -> (r: u32)
    requires
        value > 0,
    ensures
        pow2(r as nat) <= value < pow2(r as nat + 1),
{
    let mut v: usize = value;
    let mut r: u32 = 0;
    proof {
        lemma2_to64();
    }
    while v > 1
        invariant
            1 <= v,
            v * pow2(r as nat) <= value < (v + 1) * pow2(r as nat),
        decreases v,
    {
        proof {
            lemma2_to64();
            if r >= 64 {
                if r > 64 {
                    lemma_pow2_strictly_increases(64, r as nat);
                }
                assert(v * pow2(r as nat) >= pow2(64)) by (nonlinear_arith)
                    requires
                        v >= 1,
                        pow2(r as nat) >= pow2(64),
                ;
                assert(false);
            }
            lemma_pow2_adds(r as nat, 1);
            assert(pow2(r as nat + 1) == 2 * pow2(r as nat));
            let ghost b = v % 2;
            assert((v / 2) * pow2(r as nat + 1) <= value < (v / 2 + 1) * pow2(r as nat + 1))
                by (nonlinear_arith)
                requires
                    v >= 2,
                    b == v % 2,
                    v * pow2(r as nat) <= value < (v + 1) * pow2(r as nat),
                    pow2(r as nat + 1) == 2 * pow2(r as nat),
            {
                assert(v == 2 * (v / 2) + b);
            }
        }
        v = v / 2;
        r = r + 1;
    }
    proof {
        lemma_pow2_adds(r as nat, 1);
        lemma2_to64();
        assert(v == 1);
        assert(pow2(r as nat) <= value < 2 * pow2(r as nat)) by (nonlinear_arith)
            requires
                v == 1,
                v * pow2(r as nat) <= value < (v + 1) * pow2(r as nat),
        ;
    }
    r
}

} // verus!

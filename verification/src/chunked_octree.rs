use vstd::prelude::*;

use crate::block_data::BlockData;
use crate::z_order::{pow2_u64, ZOrder};
use crate::z_order_store::{
    enc_u64, enc_exec_u64, lemma_shift_is_pow2, wrap_axis, z_facts_u64, ZOrderStore,
};
use std::collections::HashMap;
use vstd::arithmetic::div_mod::{
    lemma_fundamental_div_mod, lemma_fundamental_div_mod_converse, lemma_hoist_over_denominator,
    lemma_mod_bound,
};
use vstd::arithmetic::power2::{lemma2_to64, lemma_pow2_adds, pow2};

verus! {

broadcast use vstd::std_specs::hash::group_hash_axioms;

/// The offset at which the cells of size class `k` start inside a region's
/// vector: regions store their aggregation levels top-down, the single root
/// first and the `8^depth` leaves last.
pub open spec fn start_index(k: int) -> int
    decreases k,
{
    if k <= 0 {
        0
    } else {
        8 * start_index(k - 1) + 1
    }
}

/// Each size class's cells end where the next class's cells begin.
pub proof fn lemma_start_step(k: int)
    requires
        0 <= k,
    ensures
        start_index(k + 1) == start_index(k) + pow2(3 * k as nat),
    decreases k,
{
    lemma2_to64();
    if k > 0 {
        lemma_start_step(k - 1);
        lemma_pow2_adds(3 * (k - 1) as nat, 3);
    }
}

pub proof fn lemma_start_monotone(a: int, b: int)
    requires
        0 <= a <= b,
    ensures
        start_index(a) <= start_index(b),
    decreases b - a,
{
    if a < b {
        lemma_start_monotone(a, b - 1);
        lemma_start_step(b - 1);
        vstd::arithmetic::power2::lemma_pow2_pos(3 * (b - 1) as nat);
    }
}

/// The map key under which a region with the given chunk-space position is
/// stored: its three axes, made nonnegative, as base `2^21` digits.
pub open spec fn region_key(rx: int, ry: int, rz: int) -> int {
    (rx + 0x100000) + (ry + 0x100000) * 0x200000 + (rz + 0x100000) * 0x200000 * 0x200000
}

/// Distinct in-range region positions get distinct keys.
pub proof fn lemma_region_key_injective(a: (int, int, int), b: (int, int, int))
    requires
        -0x100000 <= a.0 < 0x100000,
        -0x100000 <= a.1 < 0x100000,
        -0x100000 <= a.2 < 0x100000,
        -0x100000 <= b.0 < 0x100000,
        -0x100000 <= b.1 < 0x100000,
        -0x100000 <= b.2 < 0x100000,
        region_key(a.0, a.1, a.2) == region_key(b.0, b.1, b.2),
    ensures
        a == b,
{
    let ka = region_key(a.0, a.1, a.2);
    lemma_fundamental_div_mod_converse(
        ka,
        0x200000,
        (a.1 + 0x100000) + (a.2 + 0x100000) * 0x200000,
        a.0 + 0x100000,
    );
    lemma_fundamental_div_mod_converse(
        ka,
        0x200000,
        (b.1 + 0x100000) + (b.2 + 0x100000) * 0x200000,
        b.0 + 0x100000,
    );
    let q = ka / 0x200000;
    lemma_fundamental_div_mod_converse(q, 0x200000, a.2 + 0x100000, a.1 + 0x100000);
    lemma_fundamental_div_mod_converse(q, 0x200000, b.2 + 0x100000, b.1 + 0x100000);
}

/// The index of a node's cell inside its region's vector: the class offset of
/// its size class plus the z-order interleave of its region-local coordinates.
pub open spec fn cell_index(ax: (int, int, int), s: int) -> int {
    let p = pow2(s as nat) as int;
    start_index(s) + enc_u64((ax.0 % p) as u64, (ax.1 % p) as u64, (ax.2 % p) as u64) as int
}

/// A sparse, unbounded octree over chunk positions, split into regions of
/// `2^depth` cubed leaves; each region holds its aggregation cells densely.
pub struct ChunkedOctree<T: BlockData> {
    pub depth: u8,
    pub chunks: HashMap<u64, Vec<T>>,
}

impl<T: BlockData> ChunkedOctree<T> {
    pub open spec fn wf(self) -> bool {
        &&& 1 <= self.depth <= 9
        &&& vstd::std_specs::hash::obeys_key_model::<u64>()
        &&& forall|k: u64|
            self.chunks@.contains_key(k) ==> (#[trigger] self.chunks@[k]).len() == start_index(
                self.depth + 1,
            )
    }

    /// The region position of the node at `ax` in size class `s`
    /// (`s == depth - level`).
    pub open spec fn region_of(ax: (int, int, int), s: int) -> (int, int, int) {
        let p = pow2(s as nat) as int;
        (ax.0 / p, ax.1 / p, ax.2 / p)
    }

    /// The aggregate value stored for the node at `ax` on `level`
    /// (0 = leaves, `depth` = region roots). Absent regions hold the default
    /// value everywhere.
    pub open spec fn spec_get(self, level: int, ax: (int, int, int)) -> T {
        let s = self.depth - level;
        let r = Self::region_of(ax, s);
        let key = region_key(r.0, r.1, r.2) as u64;
        if self.chunks@.contains_key(key) {
            self.chunks@[key]@[cell_index(ax, s)]
        } else {
            T::default_spec()
        }
    }

    /// Creates an empty octree whose regions aggregate `depth` levels.
    pub fn new(depth: u8) -> (r: ChunkedOctree<T>)
        requires
            1 <= depth <= 9,
        ensures
            r.wf(),
            r.depth == depth,
            r.chunks@ == Map::<u64, Vec<T>>::empty(),
            forall|l: int, ax: (int, int, int)| #[trigger] r.spec_get(l, ax) == T::default_spec(),
    {
        let r = ChunkedOctree { depth, chunks: HashMap::new() };
        proof {
            broadcast use vstd::std_specs::hash::axiom_u64_obeys_hash_table_key_model;
        }
        r
    }

    /// The number of aggregation levels inside each region.
    pub fn depth(&self) -> (r: u8)
        ensures
            r == self.depth,
    {
        self.depth
    }

    /// The z-order interleave of the region-local coordinates of the node at
    /// `pos` in size class `s`, inside the region `region`.
    fn local_exec(pos: ZOrder<i64>, region: ZOrder<i64>, s: u8) -> (r: usize)
        requires
            pos.wf(),
            region.wf(),
            s <= 9,
            region.sx() == Self::region_of((pos.sx(), pos.sy(), pos.sz()), s as int).0,
            region.sy() == Self::region_of((pos.sx(), pos.sy(), pos.sz()), s as int).1,
            region.sz() == Self::region_of((pos.sx(), pos.sy(), pos.sz()), s as int).2,
        ensures
            r == cell_index((pos.sx(), pos.sy(), pos.sz()), s as int) - start_index(s as int),
            r < pow2(3 * s as nat),
    {
        proof {
            lemma2_to64();
            lemma_shift_is_pow2(s as u64);
            lemma_shift_is_pow2((3 * s) as u64);
            <i64 as ZOrderStore>::lemma_axis_range(pos.0, 0);
            <i64 as ZOrderStore>::lemma_axis_range(pos.0, 1);
            <i64 as ZOrderStore>::lemma_axis_range(pos.0, 2);
            z_facts_u64();
        }
        let p = pow2_u64(s as u64);
        let xw = <i64 as ZOrderStore>::axis_wide(pos.0, 0);
        let yw = <i64 as ZOrderStore>::axis_wide(pos.0, 1);
        let zw = <i64 as ZOrderStore>::axis_wide(pos.0, 2);
        let rx = <i64 as ZOrderStore>::axis_wide(region.0, 0);
        let ry = <i64 as ZOrderStore>::axis_wide(region.0, 1);
        let rz = <i64 as ZOrderStore>::axis_wide(region.0, 2);
        proof {
            lemma_fundamental_div_mod(xw as int, p as int);
            lemma_fundamental_div_mod(yw as int, p as int);
            lemma_fundamental_div_mod(zw as int, p as int);
            lemma_mod_bound(xw as int, p as int);
            lemma_mod_bound(yw as int, p as int);
            lemma_mod_bound(zw as int, p as int);
            assert((rx as int) * (p as int) == xw - (xw as int) % (p as int));
            assert((ry as int) * (p as int) == yw - (yw as int) % (p as int));
            assert((rz as int) * (p as int) == zw - (zw as int) % (p as int));
        }
        let xm = (xw - rx * (p as i64)) as u64;
        let ym = (yw - ry * (p as i64)) as u64;
        let zm = (zw - rz * (p as i64)) as u64;
        let local = enc_exec_u64(xm, ym, zm);
        proof {
            assert(local < (1u64 << (3 * (s as u64))));
        }
        local as usize
    }

    /// The vector index of the cell for the node at `pos` in size class `s`,
    /// inside the region `region`.
    fn cell_index_exec(pos: ZOrder<i64>, region: ZOrder<i64>, s: u8) -> (r: usize)
        requires
            pos.wf(),
            region.wf(),
            s <= 9,
            region.sx() == Self::region_of((pos.sx(), pos.sy(), pos.sz()), s as int).0,
            region.sy() == Self::region_of((pos.sx(), pos.sy(), pos.sz()), s as int).1,
            region.sz() == Self::region_of((pos.sx(), pos.sy(), pos.sz()), s as int).2,
        ensures
            r == cell_index((pos.sx(), pos.sy(), pos.sz()), s as int),
            start_index(s as int) <= r < start_index(s as int + 1),
    {
        let local = Self::local_exec(pos, region, s);
        proof {
            lemma_start_step(s as int);
            lemma_start_monotone(0, s as int);
            lemma_start_monotone(s as int + 1, 10);
            assert(start_index(10) == 153391689) by {
                reveal_with_fuel(start_index, 11);
            }
        }
        let base = Self::start_exec(s);
        base + local
    }

    /// The class offsets, precomputed.
    fn start_exec(k: u8) -> (r: usize)
        requires
            k <= 10,
        ensures
            r == start_index(k as int),
    {
        proof {
            reveal_with_fuel(start_index, 11);
        }
        if k == 0 {
            0
        } else if k == 1 {
            1
        } else if k == 2 {
            9
        } else if k == 3 {
            73
        } else if k == 4 {
            585
        } else if k == 5 {
            4681
        } else if k == 6 {
            37449
        } else if k == 7 {
            299593
        } else if k == 8 {
            2396745
        } else if k == 9 {
            19173961
        } else {
            153391689
        }
    }

    /// The map key of the region holding the node at `region`'s position.
    fn region_key_exec(region: ZOrder<i64>) -> (r: u64)
        requires
            region.wf(),
        ensures
            r as int == region_key(region.sx(), region.sy(), region.sz()),
    {
        proof {
            <i64 as ZOrderStore>::lemma_axis_range(region.0, 0);
            <i64 as ZOrderStore>::lemma_axis_range(region.0, 1);
            <i64 as ZOrderStore>::lemma_axis_range(region.0, 2);
            lemma2_to64();
        }
        let rx = <i64 as ZOrderStore>::axis_wide(region.0, 0);
        let ry = <i64 as ZOrderStore>::axis_wide(region.0, 1);
        let rz = <i64 as ZOrderStore>::axis_wide(region.0, 2);
        ((rx + 0x100000) as u64) + ((ry + 0x100000) as u64) * 0x200000 + ((rz + 0x100000) as u64)
            * 0x200000 * 0x200000
    }

    /// The ancestor of the leaf at `pax` on `level`: its coordinates divided
    /// by `2^level`, rounding towards negative infinity.
    pub open spec fn anc(pax: (int, int, int), l: int) -> (int, int, int) {
        let p = pow2(l as nat) as int;
        (pax.0 / p, pax.1 / p, pax.2 / p)
    }

    /// The `i`-th child of the node at `q`, one level below.
    pub open spec fn child_ax(q: (int, int, int), i: int) -> (int, int, int) {
        (2 * q.0 + i % 2, 2 * q.1 + (i / 2) % 2, 2 * q.2 + i / 4)
    }

    /// Whether a node's coordinates lie inside the coordinate space.
    pub open spec fn node_in_range(q: (int, int, int)) -> bool {
        &&& -0x100000 <= q.0 < 0x100000
        &&& -0x100000 <= q.1 < 0x100000
        &&& -0x100000 <= q.2 < 0x100000
    }

    /// Dividing twice by positive factors divides by their product, also for
    /// negative dividends.
    proof fn lemma_div_div(x: int, a: int, b: int)
        requires
            1 <= a,
            1 <= b,
            a * b <= 0x40_0000,
            -0x40_0000 <= x <= 0x40_0000,
        ensures
            (x / a) / b == x / (a * b),
    {
        let k = 0x40_0000int;
        assert(a * b >= 1 && a * b * k >= k && (b * k) * a == a * b * k && b * k >= k && k * (a
            * b) == a * b * k && k * b == b * k) by (nonlinear_arith)
            requires
                1 <= a,
                1 <= b,
                k == 0x40_0000,
        ;
        let y = x + a * b * k;
        assert(y >= 0);
        lemma_hoist_over_denominator(x, b * k, a as nat);
        assert(y / a == x / a + b * k);
        lemma_hoist_over_denominator(x / a, k, b as nat);
        assert((y / a) / b == (x / a) / b + k);
        lemma_hoist_over_denominator(x, k, (a * b) as nat);
        assert(y / (a * b) == x / (a * b) + k);
        Self::lemma_div_denominator_local(y, a, b);
    }

    proof fn lemma_div_denominator_local(y: int, a: int, b: int)
        requires
            0 <= y,
            1 <= a,
            1 <= b,
        ensures
            (y / a) / b == y / (a * b),
    {
        vstd::arithmetic::div_mod::lemma_div_denominator(y, a, b);
    }

    /// Ancestors compose: the region of the ancestor on `l` is the region of
    /// the leaf itself.
    proof fn lemma_anc_region(pax: (int, int, int), l: int, d: int)
        requires
            0 <= l <= d <= 9,
            Self::node_in_range(pax),
        ensures
            Self::region_of(Self::anc(pax, l), d - l) == Self::region_of(pax, d),
    {
        let pl = pow2(l as nat) as int;
        let ps = pow2((d - l) as nat) as int;
        lemma_pow2_adds(l as nat, (d - l) as nat);
        lemma2_to64();
        vstd::arithmetic::power2::lemma_pow2_pos(l as nat);
        vstd::arithmetic::power2::lemma_pow2_pos((d - l) as nat);
        assert(pl * ps == pow2(d as nat));
        Self::lemma_div_div(pax.0, pl, ps);
        Self::lemma_div_div(pax.1, pl, ps);
        Self::lemma_div_div(pax.2, pl, ps);
    }

    /// Each division step halves the coordinate space, so ancestors stay in
    /// range.
    proof fn lemma_div_in_range(x: int, p: int)
        requires
            1 <= p <= 0x200000,
            -0x100000 <= x < 0x100000,
        ensures
            -0x100000 <= x / p < 0x100000,
    {
        lemma_fundamental_div_mod(x, p);
        lemma_mod_bound(x, p);
        let q = x / p;
        if q >= 0x100000 {
            assert(p * q >= q) by (nonlinear_arith)
                requires
                    p >= 1,
                    q >= 0,
            ;
            assert(false);
        }
        if q < -0x100000 {
            assert(p * q + x % p < -0x100000) by (nonlinear_arith)
                requires
                    p >= 1,
                    q < -0x100000,
                    0 <= x % p < p,
                    p <= 0x200000,
            ;
            assert(false);
        }
    }

    proof fn lemma_region_in_range(q: (int, int, int), s: int)
        requires
            0 <= s <= 9,
            Self::node_in_range(q),
        ensures
            Self::node_in_range(Self::region_of(q, s)),
    {
        lemma2_to64();
        vstd::arithmetic::power2::lemma_pow2_pos(s as nat);
        let p = pow2(s as nat) as int;
        assert(p <= 0x200000) by {
            if s < 21 {
                vstd::arithmetic::power2::lemma_pow2_strictly_increases(s as nat, 21);
            }
        }
        Self::lemma_div_in_range(q.0, p);
        Self::lemma_div_in_range(q.1, p);
        Self::lemma_div_in_range(q.2, p);
    }

    proof fn lemma_anc_in_range(pax: (int, int, int), l: int)
        requires
            0 <= l <= 9,
            Self::node_in_range(pax),
        ensures
            Self::node_in_range(Self::anc(pax, l)),
    {
        lemma2_to64();
        vstd::arithmetic::power2::lemma_pow2_pos(l as nat);
        let p = pow2(l as nat) as int;
        vstd::arithmetic::power2::lemma_pow2_strictly_increases(l as nat, 22);
        Self::lemma_div_in_range(pax.0, p);
        Self::lemma_div_in_range(pax.1, p);
        Self::lemma_div_in_range(pax.2, p);
    }

    /// In-range children of in-range strict ancestors stay in range.
    proof fn lemma_child_in_range(pax: (int, int, int), l: int, i: int)
        requires
            1 <= l <= 9,
            0 <= i < 8,
            Self::node_in_range(pax),
        ensures
            Self::node_in_range(Self::child_ax(Self::anc(pax, l), i)),
            Self::child_ax(Self::anc(pax, l), i).0 == 2 * Self::anc(pax, l).0 + i % 2,
    {
        lemma2_to64();
        let p = pow2(l as nat) as int;
        let q = Self::anc(pax, l);
        assert(p >= 2) by {
            vstd::arithmetic::power2::lemma_pow2_strictly_increases(0, l as nat);
        }
        Self::lemma_div_in_range(pax.0, p);
        Self::lemma_div_in_range(pax.1, p);
        Self::lemma_div_in_range(pax.2, p);
        // dividing by at least two halves the range
        Self::lemma_half_range(pax.0, p);
        Self::lemma_half_range(pax.1, p);
        Self::lemma_half_range(pax.2, p);
    }

    proof fn lemma_half_range(x: int, p: int)
        requires
            2 <= p <= 0x200000,
            -0x100000 <= x < 0x100000,
        ensures
            -0x80000 <= x / p < 0x80000,
    {
        lemma_fundamental_div_mod(x, p);
        lemma_mod_bound(x, p);
        let q = x / p;
        if q >= 0x80000 {
            assert(p * q >= 2 * q) by (nonlinear_arith)
                requires
                    p >= 2,
                    q >= 0,
            ;
            assert(false);
        }
        if q < -0x80000 {
            assert(p * q + x % p < -0x100000) by (nonlinear_arith)
                requires
                    p >= 2,
                    q < -0x80000,
                    0 <= x % p < p,
                    p <= 0x200000,
            ;
            assert(false);
        }
    }

    /// Every node has a cell inside its size class's range.
    proof fn lemma_cell_index_bounds(ax: (int, int, int), s: int)
        requires
            0 <= s <= 9,
        ensures
            start_index(s) <= cell_index(ax, s) < start_index(s + 1),
            0 <= cell_index(ax, s),
    {
        let p = pow2(s as nat) as int;
        lemma2_to64();
        z_facts_u64();
        lemma_shift_is_pow2(s as u64);
        lemma_shift_is_pow2((3 * s) as u64);
        vstd::arithmetic::power2::lemma_pow2_pos(s as nat);
        lemma_mod_bound(ax.0, p);
        lemma_mod_bound(ax.1, p);
        lemma_mod_bound(ax.2, p);
        lemma_pow2_adds(s as nat, s as nat);
        lemma_pow2_adds(2 * s as nat, s as nat);
        lemma_start_step(s);
        lemma_start_monotone(0, s);
        assert(enc_u64((ax.0 % p) as u64, (ax.1 % p) as u64, (ax.2 % p) as u64) < (1u64 << (3 * (
        s as u64))));
    }

    /// Cells identify their size class and their region-local coordinates.
    proof fn lemma_cell_index_injective(qa: (int, int, int), qb: (int, int, int), sa: int, sb: int)
        requires
            0 <= sa <= 9,
            0 <= sb <= 9,
            cell_index(qa, sa) == cell_index(qb, sb),
        ensures
            sa == sb,
            qa.0 % (pow2(sa as nat) as int) == qb.0 % (pow2(sa as nat) as int),
            qa.1 % (pow2(sa as nat) as int) == qb.1 % (pow2(sa as nat) as int),
            qa.2 % (pow2(sa as nat) as int) == qb.2 % (pow2(sa as nat) as int),
    {
        Self::lemma_cell_index_bounds(qa, sa);
        Self::lemma_cell_index_bounds(qb, sb);
        if sa < sb {
            lemma_start_monotone(sa + 1, sb);
            assert(false);
        }
        if sb < sa {
            lemma_start_monotone(sb + 1, sa);
            assert(false);
        }
        let p = pow2(sa as nat) as int;
        lemma2_to64();
        z_facts_u64();
        lemma_shift_is_pow2(sa as u64);
        vstd::arithmetic::power2::lemma_pow2_pos(sa as nat);
        lemma_mod_bound(qa.0, p);
        lemma_mod_bound(qa.1, p);
        lemma_mod_bound(qa.2, p);
        lemma_mod_bound(qb.0, p);
        lemma_mod_bound(qb.1, p);
        lemma_mod_bound(qb.2, p);
        assert(pow2(sa as nat) < 0x200000) by {
            vstd::arithmetic::power2::lemma_pow2_strictly_increases(sa as nat, 21);
        }
    }

    /// A node's coordinates are its region's, scaled up, plus its local ones.
    proof fn lemma_node_decompose(q: (int, int, int), s: int)
        requires
            0 <= s,
        ensures
            q.0 == Self::region_of(q, s).0 * (pow2(s as nat) as int) + q.0 % (pow2(s as nat) as int),
            q.1 == Self::region_of(q, s).1 * (pow2(s as nat) as int) + q.1 % (pow2(s as nat) as int),
            q.2 == Self::region_of(q, s).2 * (pow2(s as nat) as int) + q.2 % (pow2(s as nat) as int),
    {
        let p = pow2(s as nat) as int;
        vstd::arithmetic::power2::lemma_pow2_pos(s as nat);
        lemma_fundamental_div_mod(q.0, p);
        lemma_fundamental_div_mod(q.1, p);
        lemma_fundamental_div_mod(q.2, p);
        assert((q.0 / p) * p == p * (q.0 / p) && (q.1 / p) * p == p * (q.1 / p) && (q.2 / p) * p
            == p * (q.2 / p)) by (nonlinear_arith);
    }

    /// Two distinct in-range nodes of one size class never share both their
    /// region and their cell.
    proof fn lemma_nodes_distinct(qa: (int, int, int), qb: (int, int, int), s: int)
        requires
            0 <= s <= 9,
            Self::node_in_range(qa),
            Self::node_in_range(qb),
            Self::region_of(qa, s) == Self::region_of(qb, s),
            cell_index(qa, s) == cell_index(qb, s),
        ensures
            qa == qb,
    {
        Self::lemma_cell_index_injective(qa, qb, s, s);
        Self::lemma_node_decompose(qa, s);
        Self::lemma_node_decompose(qb, s);
    }

    /// The cells of the eight children of a node sit consecutively, right
    /// after the scaled cell offset of their parent.
    #[verifier::spinoff_prover]
    #[verifier::rlimit(100)]
    proof fn lemma_children_cells(q: (int, int, int), s_c: int)
        requires
            1 <= s_c <= 9,
            Self::node_in_range(q),
        ensures
            forall|i: int|
                0 <= i < 8 ==> #[trigger] cell_index(Self::child_ax(q, i), s_c) == start_index(
                    s_c,
                ) + 8 * (cell_index(q, s_c - 1) - start_index(s_c - 1)) + i,
    {
        let sp = s_c - 1;
        let p = pow2(sp as nat) as int;
        let pc = pow2(s_c as nat) as int;
        lemma2_to64();
        z_facts_u64();
        lemma_pow2_adds(sp as nat, 1);
        vstd::arithmetic::power2::lemma_pow2_pos(sp as nat);
        lemma_shift_is_pow2(sp as u64);
        assert(pow2(sp as nat) <= pow2(8)) by {
            if sp < 8 {
                vstd::arithmetic::power2::lemma_pow2_strictly_increases(sp as nat, 8);
            }
        }
        lemma_mod_bound(q.0, p);
        lemma_mod_bound(q.1, p);
        lemma_mod_bound(q.2, p);
        assert forall|i: int| 0 <= i < 8 implies #[trigger] cell_index(Self::child_ax(q, i), s_c)
            == start_index(s_c) + 8 * (cell_index(q, sp) - start_index(sp)) + i by {
            let c = Self::child_ax(q, i);
            let dx = i % 2;
            let dy = (i / 2) % 2;
            let dz = i / 4;
            assert(i == dx + 2 * dy + 4 * dz);
            // the child's local coordinates double the parent's, plus the bit
            assert(c.0 == pc * (q.0 / p) + (2 * (q.0 % p) + dx)) by {
                lemma_fundamental_div_mod(q.0, p);
                assert(pc * (q.0 / p) == 2 * (p * (q.0 / p))) by (nonlinear_arith)
                    requires
                        pc == 2 * p,
                ;
            }
            assert(c.1 == pc * (q.1 / p) + (2 * (q.1 % p) + dy)) by {
                lemma_fundamental_div_mod(q.1, p);
                assert(pc * (q.1 / p) == 2 * (p * (q.1 / p))) by (nonlinear_arith)
                    requires
                        pc == 2 * p,
                ;
            }
            assert(c.2 == pc * (q.2 / p) + (2 * (q.2 % p) + dz)) by {
                lemma_fundamental_div_mod(q.2, p);
                assert(pc * (q.2 / p) == 2 * (p * (q.2 / p))) by (nonlinear_arith)
                    requires
                        pc == 2 * p,
                ;
            }
            vstd::arithmetic::div_mod::lemma_fundamental_div_mod_converse(
                c.0,
                pc,
                q.0 / p,
                2 * (q.0 % p) + dx,
            );
            vstd::arithmetic::div_mod::lemma_fundamental_div_mod_converse(
                c.1,
                pc,
                q.1 / p,
                2 * (q.1 % p) + dy,
            );
            vstd::arithmetic::div_mod::lemma_fundamental_div_mod_converse(
                c.2,
                pc,
                q.2 / p,
                2 * (q.2 % p) + dz,
            );
            assert(c.0 % pc == 2 * (q.0 % p) + dx && c.1 % pc == 2 * (q.1 % p) + dy && c.2 % pc
                == 2 * (q.2 % p) + dz);
            assert(enc_u64(
                (2 * (q.0 % p) + dx) as u64,
                (2 * (q.1 % p) + dy) as u64,
                (2 * (q.2 % p) + dz) as u64,
            ) == 8 * enc_u64((q.0 % p) as u64, (q.1 % p) as u64, (q.2 % p) as u64) + dx + 2 * dy
                + 4 * dz);
        }
    }

    /// Creates the region holding `key` if it is absent, filled with default
    /// values; every node keeps reading the same aggregate.
    fn ensure_region(&mut self, key: u64)
        requires
            old(self).wf(),
        ensures
            final(self).wf(),
            final(self).depth == old(self).depth,
            final(self).chunks@.contains_key(key),
            forall|l: int, q: (int, int, int)|
                #![trigger final(self).spec_get(l, q)]
                0 <= l <= old(self).depth ==> final(self).spec_get(l, q) == old(self).spec_get(
                    l,
                    q,
                ),
            final(self).chunks@[key]@ == if old(self).chunks@.contains_key(key) {
                old(self).chunks@[key]@
            } else {
                Seq::new(start_index(old(self).depth + 1) as nat, |i: int| T::default_spec())
            },
            old(self).chunks@.contains_key(key) ==> *final(self) == *old(self),
    {
        if !self.chunks.contains_key(&key) {
            let n = Self::start_exec(self.depth + 1);
            let mut v: Vec<T> = Vec::new();
            while v.len() < n
                invariant
                    v@.len() <= n,
                    forall|i: int| 0 <= i < v@.len() ==> v@[i] == T::default_spec(),
                decreases n - v@.len(),
            {
                v.push(T::default_value());
            }
            proof {
                assert(v@ =~= Seq::new(
                    start_index(self.depth + 1) as nat,
                    |i: int| T::default_spec(),
                ));
            }
            self.chunks.insert(key, v);
            proof {
                assert forall|l: int, q: (int, int, int)|
                    #![trigger self.spec_get(l, q)]
                    0 <= l <= old(self).depth implies self.spec_get(l, q) == old(self).spec_get(
                    l,
                    q,
                ) by {
                    let s = self.depth - l;
                    let rq = Self::region_of(q, s);
                    let kq = region_key(rq.0, rq.1, rq.2) as u64;
                    if kq == key {
                        Self::lemma_cell_index_bounds(q, s);
                        lemma_start_monotone(s + 1, old(self).depth + 1);
                    }
                }
            }
        }
    }

    /// Reads the aggregate of the node at `node_pos` on `level`; missing
    /// regions read as the default value.
    pub fn get(&self, level: u8, node_pos: ZOrder<i64>) -> (r: T)
        requires
            self.wf(),
            node_pos.wf(),
            level <= self.depth,
        ensures
            r == self.spec_get(level as int, (node_pos.sx(), node_pos.sy(), node_pos.sz())),
    {
        let s = self.depth - level;
        let region = node_pos.shr(s as usize);
        let key = Self::region_key_exec(region);
        match self.chunks.get(&key) {
            Some(vec) => {
                let idx = Self::cell_index_exec(node_pos, region, s);
                proof {
                    lemma_start_monotone(s as int + 1, self.depth as int + 1);
                }
                *vstd::std_specs::vec::vec_index(vec, idx)
            },
            None => T::default_value(),
        }
    }
    /// Whether `bubble_fn` can step from a parent holding `oldp` with the
    /// given children to a parent holding `newp` (with either continuation
    /// decision).
    pub open spec fn bubble_rel<B: Fn(u8, [T; 8], T) -> (T, bool)>(
        bubble_fn: B,
        l: int,
        children: Seq<T>,
        oldp: T,
        newp: T,
        c: bool,
    ) -> bool {
        exists|kids: [T; 8]|
            #![trigger call_ensures(bubble_fn, (l as u8, kids, oldp), (newp, c))]
            kids@ == children && call_ensures(bubble_fn, (l as u8, kids, oldp), (newp, c))
    }

    /// Which region cells an update of the leaf at `pax` may rewrite after
    /// finishing `upto` bubble levels: the leaf cell and the ancestor cells.
    pub open spec fn touched(pax: (int, int, int), d: int, upto: int, idx: int) -> bool {
        idx == cell_index(pax, d) || exists|j: int|
            1 <= j < upto && idx == #[trigger] cell_index(Self::anc(pax, j), d - j)
    }

    /// A bubble step recorded over a region vector: the parent cell holds
    /// what `bubble_fn` produced from the eight child cells and the parent's
    /// original aggregate.
    pub open spec fn recorded<B: Fn(u8, [T; 8], T) -> (T, bool)>(
        bubble_fn: B,
        pax: (int, int, int),
        d: int,
        j: int,
        oldvec: Seq<T>,
        v: Seq<T>,
        c: bool,
    ) -> bool {
        exists|kids: [T; 8]|
            #![trigger call_ensures(bubble_fn, (j as u8, kids, oldvec[cell_index(Self::anc(pax, j), d - j)]), (v[cell_index(Self::anc(pax, j), d - j)], c))]
            {
                &&& (forall|i: int|
                    0 <= i < 8 ==> #[trigger] kids@[i] == v[cell_index(
                        Self::child_ax(Self::anc(pax, j), i),
                        d - j + 1,
                    )])
                &&& call_ensures(
                    bubble_fn,
                    (j as u8, kids, oldvec[cell_index(Self::anc(pax, j), d - j)]),
                    (v[cell_index(Self::anc(pax, j), d - j)], c),
                )
            }
    }

    /// The start of the eight children cells of `parent`, a node of size
    /// class `s_c - 1`, one class down.
    fn children_base(parent: ZOrder<i64>, region: ZOrder<i64>, s_c: u8) -> (r: usize)
        requires
            parent.wf(),
            region.wf(),
            1 <= s_c <= 9,
            Self::node_in_range((parent.sx(), parent.sy(), parent.sz())),
            region.sx() == Self::region_of((parent.sx(), parent.sy(), parent.sz()), s_c - 1).0,
            region.sy() == Self::region_of((parent.sx(), parent.sy(), parent.sz()), s_c - 1).1,
            region.sz() == Self::region_of((parent.sx(), parent.sy(), parent.sz()), s_c - 1).2,
        ensures
            forall|i: int|
                0 <= i < 8 ==> r + i == #[trigger] cell_index(
                    Self::child_ax((parent.sx(), parent.sy(), parent.sz()), i),
                    s_c as int,
                ),
            start_index(s_c as int) <= r && r + 8 <= start_index(s_c as int + 1),
            r + 8 <= 153391689,
    {
        proof {
            Self::lemma_children_cells((parent.sx(), parent.sy(), parent.sz()), s_c as int);
            Self::lemma_cell_index_bounds(
                Self::child_ax((parent.sx(), parent.sy(), parent.sz()), 7),
                s_c as int,
            );
            lemma_start_monotone(0, s_c as int);
            lemma_start_monotone(s_c as int + 1, 10);
            assert(start_index(10) == 153391689) by {
                reveal_with_fuel(start_index, 11);
            }
        }
        let base = Self::start_exec(s_c);
        let pl = Self::local_exec(parent, region, s_c - 1);
        base + 8 * pl
    }

    /// A cell that an update has not yet rewritten holds its original value.
    proof fn lemma_untouched_cell(
        pax: (int, int, int),
        d: int,
        upto: int,
        oldvec: Seq<T>,
        v: Seq<T>,
        q: (int, int, int),
        s: int,
    )
        requires
            1 <= d <= 9,
            0 <= s <= d,
            1 <= upto <= d + 1,
            oldvec.len() == start_index(d + 1),
            v.len() == start_index(d + 1),
            forall|idx: int|
                0 <= idx < v.len() && v[idx] != oldvec[idx] ==> Self::touched(pax, d, upto, idx),
            Self::node_in_range(pax),
            Self::node_in_range(q),
            s == d ==> q != pax,
            forall|j: int| 1 <= j < upto && s == d - j ==> q != Self::anc(pax, j),
            Self::region_of(q, s) == Self::region_of(pax, d),
        ensures
            v[cell_index(q, s)] == oldvec[cell_index(q, s)],
    {
        let ci = cell_index(q, s);
        Self::lemma_cell_index_bounds(q, s);
        lemma_start_monotone(s + 1, d + 1);
        if v[ci] != oldvec[ci] {
            assert(Self::touched(pax, d, upto, ci));
            if ci == cell_index(pax, d) {
                Self::lemma_cell_index_injective(q, pax, s, d);
                Self::lemma_nodes_distinct(q, pax, s);
            } else {
                let j = choose|j: int|
                    1 <= j < upto && ci == #[trigger] cell_index(Self::anc(pax, j), d - j);
                assert(1 <= j <= d);
                Self::lemma_cell_index_injective(q, Self::anc(pax, j), s, d - j);
                Self::lemma_anc_region(pax, j, d);
                Self::lemma_anc_in_range(pax, j);
                Self::lemma_nodes_distinct(q, Self::anc(pax, j), s);
            }
            assert(false);
        }
    }

    /// One bubble step keeps all earlier records and touches only the cell
    /// of the ancestor on `level`.
    proof fn lemma_bubble_step<B: Fn(u8, [T; 8], T) -> (T, bool)>(
        bubble_fn: B,
        pax: (int, int, int),
        d: int,
        level: int,
        oldvec: Seq<T>,
        vprev: Seq<T>,
        vnew: Seq<T>,
        kids: [T; 8],
        newp: T,
        c: bool,
    )
        requires
            1 <= level <= d <= 9,
            Self::node_in_range(pax),
            oldvec.len() == start_index(d + 1),
            vprev.len() == start_index(d + 1),
            vnew == vprev.update(cell_index(Self::anc(pax, level), d - level), newp),
            forall|idx: int|
                0 <= idx < vprev.len() && vprev[idx] != oldvec[idx] ==> Self::touched(
                    pax,
                    d,
                    level,
                    idx,
                ),
            forall|i: int|
                0 <= i < 8 ==> #[trigger] kids@[i] == vprev[cell_index(
                    Self::child_ax(Self::anc(pax, level), i),
                    d - level + 1,
                )],
            call_ensures(
                bubble_fn,
                (
                    level as u8,
                    kids,
                    oldvec[cell_index(Self::anc(pax, level), d - level)],
                ),
                (newp, c),
            ),
        ensures
            vnew.len() == start_index(d + 1),
            forall|idx: int|
                0 <= idx < vnew.len() && vnew[idx] != oldvec[idx] ==> Self::touched(
                    pax,
                    d,
                    level + 1,
                    idx,
                ),
            Self::recorded(bubble_fn, pax, d, level, oldvec, vnew, c),
            forall|j: int, cc: bool|
                1 <= j < level && #[trigger] Self::recorded(bubble_fn, pax, d, j, oldvec, vprev, cc)
                    ==> Self::recorded(bubble_fn, pax, d, j, oldvec, vnew, cc),
            forall|j: int|
                #![trigger Self::anc(pax, j)]
                level + 1 <= j <= d ==> vnew[cell_index(Self::anc(pax, j), d - j)]
                    == oldvec[cell_index(Self::anc(pax, j), d - j)],
            vnew[cell_index(pax, d)] == vprev[cell_index(pax, d)],
    {
        let p_idx = cell_index(Self::anc(pax, level), d - level);
        Self::lemma_cell_index_bounds(Self::anc(pax, level), d - level);
        Self::lemma_cell_index_bounds(pax, d);
        lemma_start_monotone(d - level + 1, d + 1);
        // the leaf cell sits in another size class
        assert(p_idx != cell_index(pax, d)) by {
            if p_idx == cell_index(pax, d) {
                Self::lemma_cell_index_injective(Self::anc(pax, level), pax, d - level, d);
            }
        }
        assert(vnew[cell_index(pax, d)] == vprev[cell_index(pax, d)]);
        // changed cells are the leaf's and the finished ancestors'
        assert forall|idx: int|
            0 <= idx < vnew.len() && vnew[idx] != oldvec[idx] implies Self::touched(
            pax,
            d,
            level + 1,
            idx,
        ) by {
            if idx != p_idx {
                assert(Self::touched(pax, d, level, idx));
                if idx != cell_index(pax, d) {
                    let j = choose|j: int|
                        1 <= j < level && idx == #[trigger] cell_index(Self::anc(pax, j), d - j);
                    assert(1 <= j < level + 1 && idx == cell_index(Self::anc(pax, j), d - j));
                }
            } else {
                assert(idx == cell_index(Self::anc(pax, level), d - level));
            }
        }
        // earlier records read cells in size classes this write avoids
        assert forall|j: int, cc: bool|
            1 <= j < level + 1 && (j == level && cc == c || j < level && Self::recorded(
                bubble_fn,
                pax,
                d,
                j,
                oldvec,
                vprev,
                cc,
            )) implies #[trigger] Self::recorded(bubble_fn, pax, d, j, oldvec, vnew, cc) by {
            if j == level {
                assert(vnew[p_idx] == newp);
                assert(call_ensures(
                    bubble_fn,
                    (j as u8, kids, oldvec[cell_index(Self::anc(pax, j), d - j)]),
                    (vnew[cell_index(Self::anc(pax, j), d - j)], c),
                ));
                assert forall|i: int| 0 <= i < 8 implies #[trigger] kids@[i]
                    == vnew[cell_index(Self::child_ax(Self::anc(pax, j), i), d - j + 1)] by {
                    Self::lemma_cell_index_bounds(
                        Self::child_ax(Self::anc(pax, j), i),
                        d - j + 1,
                    );
                    lemma_start_monotone(d - level + 1, d - j + 1);
                    lemma_start_monotone(d - j + 2, d + 1);
                    assert(cell_index(Self::child_ax(Self::anc(pax, j), i), d - j + 1) != p_idx);
                    assert(vnew[cell_index(Self::child_ax(Self::anc(pax, j), i), d - j + 1)]
                        == vprev[cell_index(Self::child_ax(Self::anc(pax, j), i), d - j + 1)]);
                }
                assert(call_ensures(
                    bubble_fn,
                    (j as u8, kids, oldvec[cell_index(Self::anc(pax, j), d - j)]),
                    (vnew[cell_index(Self::anc(pax, j), d - j)], c),
                ));
                assert(Self::recorded(bubble_fn, pax, d, j, oldvec, vnew, cc));
            } else {
                assert(Self::recorded(bubble_fn, pax, d, j, oldvec, vprev, cc));
                let kids0 = choose|kids0: [T; 8]|
                    #![trigger call_ensures(bubble_fn, (j as u8, kids0, oldvec[cell_index(Self::anc(pax, j), d - j)]), (vprev[cell_index(Self::anc(pax, j), d - j)], cc))]
                    {
                        &&& (forall|i: int|
                            0 <= i < 8 ==> #[trigger] kids0@[i] == vprev[cell_index(
                                Self::child_ax(Self::anc(pax, j), i),
                                d - j + 1,
                            )])
                        &&& call_ensures(
                            bubble_fn,
                            (j as u8, kids0, oldvec[cell_index(Self::anc(pax, j), d - j)]),
                            (vprev[cell_index(Self::anc(pax, j), d - j)], cc),
                        )
                    };
                assert forall|i: int| 0 <= i < 8 implies #[trigger] kids0@[i]
                    == vnew[cell_index(Self::child_ax(Self::anc(pax, j), i), d - j + 1)] by {
                    Self::lemma_cell_index_bounds(
                        Self::child_ax(Self::anc(pax, j), i),
                        d - j + 1,
                    );
                    lemma_start_monotone(d - level + 1, d - j + 1);
                    lemma_start_monotone(d - j + 2, d + 1);
                    assert(cell_index(Self::child_ax(Self::anc(pax, j), i), d - j + 1) != p_idx);
                    assert(vnew[cell_index(Self::child_ax(Self::anc(pax, j), i), d - j + 1)]
                        == vprev[cell_index(Self::child_ax(Self::anc(pax, j), i), d - j + 1)]);
                }
                assert(cell_index(Self::anc(pax, j), d - j) != p_idx) by {
                    Self::lemma_cell_index_bounds(Self::anc(pax, j), d - j);
                    lemma_start_monotone(d - level + 1, d - j);
                }
                assert(vnew[cell_index(Self::anc(pax, j), d - j)] == vprev[cell_index(
                    Self::anc(pax, j),
                    d - j,
                )]) by {
                    Self::lemma_cell_index_bounds(Self::anc(pax, j), d - j);
                    lemma_start_monotone(d - j + 1, d + 1);
                }
                assert(call_ensures(
                    bubble_fn,
                    (j as u8, kids0, oldvec[cell_index(Self::anc(pax, j), d - j)]),
                    (vnew[cell_index(Self::anc(pax, j), d - j)], cc),
                ));
                assert(Self::recorded(bubble_fn, pax, d, j, oldvec, vnew, cc));
            }
        }
        // cells of ancestors not yet reached are still original
        assert forall|j: int|
            #![trigger Self::anc(pax, j)]
            level + 1 <= j <= d implies vnew[cell_index(Self::anc(pax, j), d - j)]
            == oldvec[cell_index(Self::anc(pax, j), d - j)] by {
            Self::lemma_anc_in_range(pax, j);
            Self::lemma_anc_region(pax, j, d);
            Self::lemma_region_in_range(pax, d);
            assert forall|j2: int|
                #![trigger Self::anc(pax, j2)]
                1 <= j2 < level + 1 && d - j == d - j2 implies Self::anc(pax, j) != Self::anc(
                pax,
                j2,
            ) by {
                assert(false);
            }
            Self::lemma_untouched_cell(
                pax,
                d,
                level + 1,
                oldvec,
                vnew,
                Self::anc(pax, j),
                d - j,
            );
        }
    }

    /// Applies `update_fn` to the leaf cell at `node_pos`, then climbs
    /// towards the region root, handing `bubble_fn` each parent cell together
    /// with its eight children, until it reports that nothing changed or the
    /// root is reached. The region is created on first touch. All other
    /// nodes keep their aggregates; each rewritten ancestor holds a value
    /// that `bubble_fn` produced from its final children and its old value.
    #[verifier::rlimit(100)]
    #[verifier::spinoff_prover]
    pub fn update<U: FnOnce(T) -> T, B: Fn(u8, [T; 8], T) -> (T, bool)>(
        &mut self,
        node_pos: ZOrder<i64>,
        update_fn: U,
        bubble_fn: B,
    ) -> (stop: Ghost<(u8, bool)>)
        requires
            old(self).wf(),
            node_pos.wf(),
            call_requires(
                update_fn,
                (old(self).spec_get(0, (node_pos.sx(), node_pos.sy(), node_pos.sz())),),
            ),
            forall|l: u8, c: [T; 8], p: T| call_requires(bubble_fn, (l, c, p)),
        ensures
            final(self).wf(),
            final(self).depth == old(self).depth,
            ({
                let pax = (node_pos.sx(), node_pos.sy(), node_pos.sz());
                let d = old(self).depth as int;
                &&& call_ensures(
                    update_fn,
                    (old(self).spec_get(0, pax),),
                    final(self).spec_get(0, pax),
                )
                &&& forall|l: int, q: (int, int, int)|
                    0 <= l <= d && Self::node_in_range(q) && q != Self::anc(pax, l)
                        ==> #[trigger] final(self).spec_get(l, q) == old(self).spec_get(l, q)
                &&& 1 <= stop@.0 <= d
                &&& forall|l: int|
                    stop@.0 < l <= d ==> #[trigger] final(self).spec_get(l, Self::anc(pax, l))
                        == old(self).spec_get(l, Self::anc(pax, l))
                &&& forall|l: int|
                    #![trigger Self::anc(pax, l)]
                    1 <= l < stop@.0 ==> Self::bubble_rel(
                        bubble_fn,
                        l,
                        Seq::new(
                            8,
                            |i: int|
                                final(self).spec_get(l - 1, Self::child_ax(Self::anc(pax, l), i)),
                        ),
                        old(self).spec_get(l, Self::anc(pax, l)),
                        final(self).spec_get(l, Self::anc(pax, l)),
                        true,
                    )
                &&& Self::bubble_rel(
                    bubble_fn,
                    stop@.0 as int,
                    Seq::new(
                        8,
                        |i: int|
                            final(self).spec_get(
                                stop@.0 - 1,
                                Self::child_ax(Self::anc(pax, stop@.0 as int), i),
                            ),
                    ),
                    old(self).spec_get(stop@.0 as int, Self::anc(pax, stop@.0 as int)),
                    final(self).spec_get(stop@.0 as int, Self::anc(pax, stop@.0 as int)),
                    stop@.1,
                )
            }),
    {
        proof {
            <i64 as ZOrderStore>::lemma_axis_range(node_pos.0, 0);
            <i64 as ZOrderStore>::lemma_axis_range(node_pos.0, 1);
            <i64 as ZOrderStore>::lemma_axis_range(node_pos.0, 2);
            lemma2_to64();
        }
        let ghost pax = (node_pos.sx(), node_pos.sy(), node_pos.sz());
        let depth = self.depth;
        let ghost d = depth as int;
        let region = node_pos.shr(depth as usize);
        let key = Self::region_key_exec(region);
        self.ensure_region(key);
        let ghost map_a = *self;
        let vec_opt = self.chunks.remove(&key);
        let mut vec = vec_opt.unwrap();
        let ghost oldvec = vec@;
        proof {
            assert(oldvec.len() == start_index(d + 1));
        }
        // the leaf write
        let leaf_idx = Self::cell_index_exec(node_pos, region, depth);
        proof {
            lemma_start_monotone(d + 1, d + 1);
            assert(Self::anc(pax, 0) == pax) by {
                lemma2_to64();
                vstd::arithmetic::div_mod::lemma_div_basics(pax.0);
                vstd::arithmetic::div_mod::lemma_div_basics(pax.1);
                vstd::arithmetic::div_mod::lemma_div_basics(pax.2);
            }
            assert(map_a.spec_get(0, pax) == oldvec[leaf_idx as int]);
        }
        let oldleaf = *vstd::std_specs::vec::vec_index(&vec, leaf_idx);
        let newleaf = update_fn(oldleaf);
        vec.set(leaf_idx, newleaf);
        // bubble upward
        let mut level: u8 = 1;
        let mut cur = node_pos;
        let mut go = true;
        while go && level <= depth
            invariant
                1 <= level <= depth + 1,
                go || level >= 2,
                d == depth,
                1 <= depth <= 9,
                node_pos.wf(),
                cur.wf(),
                pax == (node_pos.sx(), node_pos.sy(), node_pos.sz()),
                Self::node_in_range(pax),
                (cur.sx(), cur.sy(), cur.sz()) == Self::anc(pax, level - 1),
                region.wf(),
                (region.sx(), region.sy(), region.sz()) == Self::region_of(pax, d),
                vec@.len() == start_index(d + 1),
                oldvec.len() == start_index(d + 1),
                leaf_idx == cell_index(pax, d),
                0 <= leaf_idx < vec@.len(),
                vec@[leaf_idx as int] == newleaf,
                call_ensures(update_fn, (oldvec[leaf_idx as int],), newleaf),
                forall|l: u8, c: [T; 8], p: T| call_requires(bubble_fn, (l, c, p)),
                forall|idx: int|
                    0 <= idx < vec@.len() && vec@[idx] != oldvec[idx] ==> Self::touched(
                        pax,
                        d,
                        level as int,
                        idx,
                    ),
                forall|j: int|
                    1 <= j < level - 1 ==> #[trigger] Self::recorded(
                        bubble_fn,
                        pax,
                        d,
                        j,
                        oldvec,
                        vec@,
                        true,
                    ),
                level >= 2 ==> Self::recorded(
                    bubble_fn,
                    pax,
                    d,
                    level - 1,
                    oldvec,
                    vec@,
                    go,
                ),
                !go ==> forall|j: int|
                    #![trigger Self::anc(pax, j)]
                    level <= j <= d ==> vec@[cell_index(Self::anc(pax, j), d - j)]
                        == oldvec[cell_index(Self::anc(pax, j), d - j)],
            decreases depth + 1 - level,
        {
            let s_p = depth - level;
            let s_c = s_p + 1;
            let parent = cur.shr(1);
            proof {
                let p2 = pow2((level - 1) as nat) as int;
                lemma2_to64();
                vstd::arithmetic::power2::lemma_pow2_pos((level - 1) as nat);
                lemma_pow2_adds((level - 1) as nat, 1);
                Self::lemma_div_div(pax.0, p2, 2);
                Self::lemma_div_div(pax.1, p2, 2);
                Self::lemma_div_div(pax.2, p2, 2);
                assert((parent.sx(), parent.sy(), parent.sz()) == Self::anc(pax, level as int));
                Self::lemma_anc_region(pax, level as int, d);
                Self::lemma_anc_in_range(pax, level as int);
                Self::lemma_anc_in_range(pax, level - 1);
            }
            let p_idx = Self::cell_index_exec(parent, region, s_p);
            let cbase = Self::children_base(parent, region, s_c);
            proof {
                lemma_start_monotone(s_c as int + 1, d + 1);
                lemma_start_monotone(s_p as int + 1, d + 1);
                // the parent cell still holds its original aggregate
                assert forall|j2: int|
                    #![trigger Self::anc(pax, j2)]
                    1 <= j2 < level as int && s_p as int == d - j2 implies Self::anc(
                    pax,
                    level as int,
                ) != Self::anc(pax, j2) by {
                    assert(j2 == level as int);
                }
                Self::lemma_untouched_cell(
                    pax,
                    d,
                    level as int,
                    oldvec,
                    vec@,
                    Self::anc(pax, level as int),
                    s_p as int,
                );
            }
            let kids: [T; 8] = [
                *vstd::std_specs::vec::vec_index(&vec, cbase),
                *vstd::std_specs::vec::vec_index(&vec, cbase + 1),
                *vstd::std_specs::vec::vec_index(&vec, cbase + 2),
                *vstd::std_specs::vec::vec_index(&vec, cbase + 3),
                *vstd::std_specs::vec::vec_index(&vec, cbase + 4),
                *vstd::std_specs::vec::vec_index(&vec, cbase + 5),
                *vstd::std_specs::vec::vec_index(&vec, cbase + 6),
                *vstd::std_specs::vec::vec_index(&vec, cbase + 7),
            ];
            let oldp = *vstd::std_specs::vec::vec_index(&vec, p_idx);
            proof {
                assert(oldp == oldvec[p_idx as int]);
                assert forall|i: int| 0 <= i < 8 implies #[trigger] kids@[i]
                    == vec@[cell_index(
                    Self::child_ax(Self::anc(pax, level as int), i),
                    s_c as int,
                )] by {
                    assert(cbase + i == cell_index(
                        Self::child_ax(Self::anc(pax, level as int), i),
                        s_c as int,
                    ));
                }
            }
            let ghost vprev = vec@;
            proof {
                assert forall|j: int| 1 <= j < level as int - 1 implies #[trigger] Self::recorded(
                    bubble_fn,
                    pax,
                    d,
                    j,
                    oldvec,
                    vprev,
                    true,
                ) by {
                    assert(Self::recorded(bubble_fn, pax, d, j, oldvec, vec@, true));
                }
                if level >= 2 {
                    assert(Self::recorded(bubble_fn, pax, d, level - 1, oldvec, vprev, true));
                }
            }
            let res = bubble_fn(level, kids, oldp);
            let newp = res.0;
            go = res.1;
            vec.set(p_idx, newp);
            proof {
                Self::lemma_bubble_step(
                    bubble_fn,
                    pax,
                    d,
                    level as int,
                    oldvec,
                    vprev,
                    vec@,
                    kids,
                    newp,
                    go,
                );
                assert forall|j: int| 1 <= j < level as int implies #[trigger] Self::recorded(
                    bubble_fn,
                    pax,
                    d,
                    j,
                    oldvec,
                    vec@,
                    true,
                ) by {
                    assert(Self::recorded(bubble_fn, pax, d, j, oldvec, vprev, true));
                }
                if !go {
                    assert forall|j: int|
                        #![trigger Self::anc(pax, j)]
                        level + 1 <= j <= d implies vec@[cell_index(Self::anc(pax, j), d - j)]
                        == oldvec[cell_index(Self::anc(pax, j), d - j)] by {}
                }
            }
            cur = parent;
            level = level + 1;
        }
        let ghost vecfinal = vec@;
        let ghost stop_level = level as int - 1;
        let ghost went = go;
        proof {
            assert(level >= 2);
            assert forall|j: int| 1 <= j < stop_level implies #[trigger] Self::recorded(
                bubble_fn,
                pax,
                d,
                j,
                oldvec,
                vecfinal,
                true,
            ) by {
                assert(Self::recorded(bubble_fn, pax, d, j, oldvec, vec@, true));
            }
            assert(Self::recorded(bubble_fn, pax, d, stop_level, oldvec, vecfinal, went));
            assert forall|idx: int|
                0 <= idx < vecfinal.len() && vecfinal[idx] != oldvec[idx] implies Self::touched(
                pax,
                d,
                stop_level + 1,
                idx,
            ) by {}
            if went {
                assert(stop_level == d);
            }
            assert forall|j: int|
                #![trigger Self::anc(pax, j)]
                stop_level < j <= d implies vecfinal[cell_index(Self::anc(pax, j), d - j)]
                == oldvec[cell_index(Self::anc(pax, j), d - j)] by {}
        }
        self.chunks.insert(key, vec);
        proof {
            assert(self.chunks@[key]@ == vecfinal);
            assert forall|k: u64|
                k != key implies (#[trigger] self.chunks@.contains_key(k))
                == map_a.chunks@.contains_key(k) by {}
            assert forall|k: u64|
                k != key && map_a.chunks@.contains_key(k) implies (#[trigger] self.chunks@[k])
                == map_a.chunks@[k] by {}
            Self::lemma_update_post(
                *old(self),
                map_a,
                *self,
                pax,
                d,
                key,
                oldvec,
                vecfinal,
                leaf_idx as int,
                newleaf,
                stop_level,
                went,
                update_fn,
                bubble_fn,
            );
        }
        Ghost((stop_level as u8, went))
    }

    /// What a caller knows after `update(pos, u, b)` took an octree from
    /// `o1` to `o2` and reported `e`: the leaf was rewritten through `u`,
    /// everything off the leaf's ancestor path kept its aggregate, the
    /// ancestors up to the stop level were rewritten through `b`, and the
    /// ones above the stop level kept theirs.
    pub open spec fn update_post<U: FnOnce(T) -> T, B: Fn(u8, [T; 8], T) -> (T, bool)>(
        o1: Self,
        o2: Self,
        pax: (int, int, int),
        e: (u8, bool),
        u: U,
        b: B,
    ) -> bool {
        let d = o1.depth as int;
        &&& o2.depth == o1.depth
        &&& call_ensures(u, (o1.spec_get(0, pax),), o2.spec_get(0, pax))
        &&& forall|l: int, q: (int, int, int)|
            0 <= l <= d && Self::node_in_range(q) && q != Self::anc(pax, l)
                ==> #[trigger] o2.spec_get(l, q) == o1.spec_get(l, q)
        &&& 1 <= e.0 <= d
        &&& forall|l: int|
            e.0 < l <= d ==> #[trigger] o2.spec_get(l, Self::anc(pax, l)) == o1.spec_get(
                l,
                Self::anc(pax, l),
            )
        &&& forall|l: int|
            #![trigger Self::anc(pax, l)]
            1 <= l < e.0 ==> Self::bubble_rel(
                b,
                l,
                Seq::new(8, |i: int| o2.spec_get(l - 1, Self::child_ax(Self::anc(pax, l), i))),
                o1.spec_get(l, Self::anc(pax, l)),
                o2.spec_get(l, Self::anc(pax, l)),
                true,
            )
        &&& Self::bubble_rel(
            b,
            e.0 as int,
            Seq::new(
                8,
                |i: int| o2.spec_get(e.0 - 1, Self::child_ax(Self::anc(pax, e.0 as int), i)),
            ),
            o1.spec_get(e.0 as int, Self::anc(pax, e.0 as int)),
            o2.spec_get(e.0 as int, Self::anc(pax, e.0 as int)),
            e.1,
        )
    }

    /// Whether the caller's functions behave like the mathematical models
    /// `uf` and `bf` of an OR-style update: the leaf function is idempotent,
    /// and the bubble step is a function of its arguments, reports a change
    /// exactly when the parent changed, and is stable on its own output.
    pub open spec fn or_style<U1: FnOnce(T) -> T, U2: FnOnce(T) -> T, B: Fn(u8, [T; 8], T) -> (
        T,
        bool,
    )>(u1: U1, u2: U2, b: B, uf: spec_fn(T) -> T, bf: spec_fn(int, Seq<T>, T) -> T) -> bool {
        &&& forall|x: T, y: T| #[trigger] call_ensures(u1, (x,), y) ==> y == uf(x)
        &&& forall|x: T, y: T| #[trigger] call_ensures(u2, (x,), y) ==> y == uf(x)
        &&& forall|x: T| #[trigger] uf(uf(x)) == uf(x)
        &&& forall|l: u8, k: [T; 8], p: T, q: T, c: bool|
            #[trigger] call_ensures(b, (l, k, p), (q, c)) ==> q == bf(l as int, k@, p) && c == (q
                != p)
        &&& forall|l: int, k: Seq<T>, p: T| #[trigger] bf(l, k, bf(l, k, p)) == bf(l, k, p)
    }

    /// Applying one OR-style update twice changes nothing the second time:
    /// every aggregate reads as after the first application.
    pub proof fn lemma_update_idempotent<
        U1: FnOnce(T) -> T,
        U2: FnOnce(T) -> T,
        B: Fn(u8, [T; 8], T) -> (T, bool),
    >(
        o1: Self,
        o2: Self,
        o3: Self,
        pax: (int, int, int),
        e1: (u8, bool),
        e2: (u8, bool),
        u1: U1,
        u2: U2,
        b: B,
        uf: spec_fn(T) -> T,
        bf: spec_fn(int, Seq<T>, T) -> T,
    )
        requires
            1 <= o1.depth <= 9,
            Self::node_in_range(pax),
            Self::or_style(u1, u2, b, uf, bf),
            Self::update_post(o1, o2, pax, e1, u1, b),
            Self::update_post(o2, o3, pax, e2, u2, b),
        ensures
            forall|l: int, q: (int, int, int)|
                0 <= l <= o1.depth && Self::node_in_range(q) ==> #[trigger] o3.spec_get(l, q)
                    == o2.spec_get(l, q),
    {
        let d = o1.depth as int;
        Self::lemma_idem_anc(o1, o2, o3, pax, e1, e2, u1, u2, b, uf, bf, d);
        assert forall|l: int, q: (int, int, int)|
            0 <= l <= o1.depth && Self::node_in_range(q) implies #[trigger] o3.spec_get(l, q)
            == o2.spec_get(l, q) by {
            if q != Self::anc(pax, l) {
            } else {
            }
        }
    }

    /// The ancestor aggregates up to `l` read the same after the second
    /// OR-style application as after the first.
    proof fn lemma_idem_anc<
        U1: FnOnce(T) -> T,
        U2: FnOnce(T) -> T,
        B: Fn(u8, [T; 8], T) -> (T, bool),
    >(
        o1: Self,
        o2: Self,
        o3: Self,
        pax: (int, int, int),
        e1: (u8, bool),
        e2: (u8, bool),
        u1: U1,
        u2: U2,
        b: B,
        uf: spec_fn(T) -> T,
        bf: spec_fn(int, Seq<T>, T) -> T,
        l: int,
    )
        requires
            1 <= o1.depth <= 9,
            0 <= l <= o1.depth,
            Self::node_in_range(pax),
            Self::or_style(u1, u2, b, uf, bf),
            Self::update_post(o1, o2, pax, e1, u1, b),
            Self::update_post(o2, o3, pax, e2, u2, b),
        ensures
            forall|j: int|
                0 <= j <= l ==> #[trigger] o3.spec_get(j, Self::anc(pax, j)) == o2.spec_get(
                    j,
                    Self::anc(pax, j),
                ),
        decreases l,
    {
        let d = o1.depth as int;
        if l == 0 {
            // the leaf: the idempotent leaf function absorbs the second write
            assert(Self::anc(pax, 0) == pax) by {
                lemma2_to64();
                vstd::arithmetic::div_mod::lemma_div_basics(pax.0);
                vstd::arithmetic::div_mod::lemma_div_basics(pax.1);
                vstd::arithmetic::div_mod::lemma_div_basics(pax.2);
            }
            assert(o2.spec_get(0, pax) == uf(o1.spec_get(0, pax)));
            assert(o3.spec_get(0, pax) == uf(o2.spec_get(0, pax)));
        } else {
            Self::lemma_idem_anc(o1, o2, o3, pax, e1, e2, u1, u2, b, uf, bf, l - 1);
            let a = Self::anc(pax, l);
            // the children of the ancestor read the same in `o3` and `o2`
            assert forall|i: int| 0 <= i < 8 implies #[trigger] o3.spec_get(
                l - 1,
                Self::child_ax(a, i),
            ) == o2.spec_get(l - 1, Self::child_ax(a, i)) by {
                Self::lemma_child_in_range(pax, l, i);
                if Self::child_ax(a, i) != Self::anc(pax, l - 1) {
                } else {
                }
            }
            let kids3 = Seq::new(8, |i: int| o3.spec_get(l - 1, Self::child_ax(a, i)));
            let kids2 = Seq::new(8, |i: int| o2.spec_get(l - 1, Self::child_ax(a, i)));
            assert(kids3 =~= kids2);
            if l > e2.0 {
                // the second application never reached this level
            } else {
                // the second application rewrote this level through `b`
                let c3 = if l < e2.0 {
                    true
                } else {
                    e2.1
                };
                assert(Self::bubble_rel(b, l, kids3, o2.spec_get(l, a), o3.spec_get(l, a), c3));
                let k3 = choose|k3: [T; 8]|
                    #![trigger call_ensures(b, (l as u8, k3, o2.spec_get(l, a)), (o3.spec_get(l, a), c3))]
                    k3@ == kids3 && call_ensures(
                        b,
                        (l as u8, k3, o2.spec_get(l, a)),
                        (o3.spec_get(l, a), c3),
                    );
                assert(o3.spec_get(l, a) == bf(l, kids2, o2.spec_get(l, a)));
                if l <= e1.0 {
                    // the first application also rewrote it: stability makes
                    // the second rewrite a no-op
                    let c2 = if l < e1.0 {
                        true
                    } else {
                        e1.1
                    };
                    assert(Self::bubble_rel(
                        b,
                        l,
                        kids2,
                        o1.spec_get(l, a),
                        o2.spec_get(l, a),
                        c2,
                    ));
                    let k2 = choose|k2: [T; 8]|
                        #![trigger call_ensures(b, (l as u8, k2, o1.spec_get(l, a)), (o2.spec_get(l, a), c2))]
                        k2@ == kids2 && call_ensures(
                            b,
                            (l as u8, k2, o1.spec_get(l, a)),
                            (o2.spec_get(l, a), c2),
                        );
                    assert(o2.spec_get(l, a) == bf(l, kids2, o1.spec_get(l, a)));
                    assert(bf(l, kids2, bf(l, kids2, o1.spec_get(l, a))) == bf(
                        l,
                        kids2,
                        o1.spec_get(l, a),
                    ));
                } else {
                    // impossible: the second application cannot outrun the
                    // first, because right above the first's stop level it
                    // would have found nothing to change
                    let m = e1.0 as int;
                    assert(1 <= m < l && m < e2.0);
                    // the second application bubbled level `m` with a change
                    let am = Self::anc(pax, m);
                    let kids3m = Seq::new(
                        8,
                        |i: int| o3.spec_get(m - 1, Self::child_ax(am, i)),
                    );
                    assert(Self::bubble_rel(
                        b,
                        m,
                        kids3m,
                        o2.spec_get(m, am),
                        o3.spec_get(m, am),
                        true,
                    ));
                    let km = choose|km: [T; 8]|
                        #![trigger call_ensures(b, (m as u8, km, o2.spec_get(m, am)), (o3.spec_get(m, am), true))]
                        km@ == kids3m && call_ensures(
                            b,
                            (m as u8, km, o2.spec_get(m, am)),
                            (o3.spec_get(m, am), true),
                        );
                    // but this level reads the same after both applications
                    assert(o3.spec_get(m, am) == o2.spec_get(m, am));
                    assert(false);
                }
            }
        }
    }

    /// Translates the cell-level facts established by `update`'s bubble loop
    /// into node-level reads on the final octree.
    #[verifier::rlimit(100)]
    proof fn lemma_update_post<U: FnOnce(T) -> T, B: Fn(u8, [T; 8], T) -> (T, bool)>(
        o0: Self,
        oa: Self,
        of_: Self,
        pax: (int, int, int),
        d: int,
        key: u64,
        oldvec: Seq<T>,
        vecfinal: Seq<T>,
        leaf_idx: int,
        newleaf: T,
        lvl: int,
        went: bool,
        update_fn: U,
        bubble_fn: B,
    )
        requires
            o0.wf(),
            oa.wf(),
            of_.wf(),
            d == o0.depth,
            oa.depth == o0.depth,
            of_.depth == o0.depth,
            1 <= d <= 9,
            Self::node_in_range(pax),
            forall|l: int, q: (int, int, int)|
                #![trigger oa.spec_get(l, q)]
                0 <= l <= d ==> oa.spec_get(l, q) == o0.spec_get(l, q),
            oa.chunks@.contains_key(key),
            oa.chunks@[key]@ == oldvec,
            key as int == region_key(
                Self::region_of(pax, d).0,
                Self::region_of(pax, d).1,
                Self::region_of(pax, d).2,
            ),
            forall|k: u64|
                k != key ==> (#[trigger] of_.chunks@.contains_key(k)) == oa.chunks@.contains_key(
                    k,
                ),
            forall|k: u64|
                k != key && oa.chunks@.contains_key(k) ==> (#[trigger] of_.chunks@[k])
                    == oa.chunks@[k],
            of_.chunks@.contains_key(key),
            of_.chunks@[key]@ == vecfinal,
            oldvec.len() == start_index(d + 1),
            vecfinal.len() == start_index(d + 1),
            leaf_idx == cell_index(pax, d),
            vecfinal[leaf_idx] == newleaf,
            call_ensures(update_fn, (oldvec[leaf_idx],), newleaf),
            1 <= lvl <= d,
            forall|idx: int|
                0 <= idx < vecfinal.len() && vecfinal[idx] != oldvec[idx] ==> Self::touched(
                    pax,
                    d,
                    lvl + 1,
                    idx,
                ),
            forall|j: int|
                1 <= j < lvl ==> #[trigger] Self::recorded(
                    bubble_fn,
                    pax,
                    d,
                    j,
                    oldvec,
                    vecfinal,
                    true,
                ),
            Self::recorded(bubble_fn, pax, d, lvl, oldvec, vecfinal, went),
            forall|j: int|
                #![trigger Self::anc(pax, j)]
                lvl < j <= d ==> vecfinal[cell_index(Self::anc(pax, j), d - j)]
                    == oldvec[cell_index(Self::anc(pax, j), d - j)],
        ensures
            call_ensures(update_fn, (o0.spec_get(0, pax),), of_.spec_get(0, pax)),
            forall|l: int, q: (int, int, int)|
                0 <= l <= d && Self::node_in_range(q) && q != Self::anc(pax, l)
                    ==> #[trigger] of_.spec_get(l, q) == o0.spec_get(l, q),
            forall|l: int|
                lvl < l <= d ==> #[trigger] of_.spec_get(l, Self::anc(pax, l)) == o0.spec_get(
                    l,
                    Self::anc(pax, l),
                ),
            forall|l: int|
                #![trigger Self::anc(pax, l)]
                1 <= l < lvl ==> Self::bubble_rel(
                    bubble_fn,
                    l,
                    Seq::new(
                        8,
                        |i: int| of_.spec_get(l - 1, Self::child_ax(Self::anc(pax, l), i)),
                    ),
                    o0.spec_get(l, Self::anc(pax, l)),
                    of_.spec_get(l, Self::anc(pax, l)),
                    true,
                ),
            Self::bubble_rel(
                bubble_fn,
                lvl,
                Seq::new(
                    8,
                    |i: int| of_.spec_get(lvl - 1, Self::child_ax(Self::anc(pax, lvl), i)),
                ),
                o0.spec_get(lvl, Self::anc(pax, lvl)),
                of_.spec_get(lvl, Self::anc(pax, lvl)),
                went,
            ),
    {
        let rp = Self::region_of(pax, d);
        Self::lemma_region_in_range(pax, d);
        // reading a node inside the target region reads the vectors
        assert forall|l: int, q: (int, int, int)|
            0 <= l <= d && Self::node_in_range(q) && Self::region_of(q, d - l) == rp implies (
        #[trigger] of_.spec_get(l, q)) == vecfinal[cell_index(q, d - l)] && oa.spec_get(l, q)
            == oldvec[cell_index(q, d - l)] by {
            Self::lemma_cell_index_bounds(q, d - l);
            lemma_start_monotone(d - l + 1, d + 1);
        }
        // reading one outside it is unaffected
        assert forall|l: int, q: (int, int, int)|
            0 <= l <= d && Self::node_in_range(q) && Self::region_of(q, d - l) != rp implies (
        #[trigger] of_.spec_get(l, q)) == oa.spec_get(l, q) by {
            let rq = Self::region_of(q, d - l);
            Self::lemma_region_in_range(q, d - l);
            let kq = region_key(rq.0, rq.1, rq.2) as u64;
            if kq == key {
                lemma_region_key_injective(rq, rp);
                assert(false);
            }
            assert(kq != key);
            assert(of_.chunks@.contains_key(kq) == oa.chunks@.contains_key(kq));
            if oa.chunks@.contains_key(kq) {
                assert(of_.chunks@[kq] == oa.chunks@[kq]);
            }
        }
        // the leaf
        assert(Self::anc(pax, 0) == pax) by {
            lemma2_to64();
            vstd::arithmetic::div_mod::lemma_div_basics(pax.0);
            vstd::arithmetic::div_mod::lemma_div_basics(pax.1);
            vstd::arithmetic::div_mod::lemma_div_basics(pax.2);
        }
        assert(Self::region_of(pax, d - 0) == rp);
        assert(of_.spec_get(0, pax) == newleaf);
        assert(oa.spec_get(0, pax) == oldvec[leaf_idx]);
        // the frame
        assert forall|l: int, q: (int, int, int)|
            0 <= l <= d && Self::node_in_range(q) && q != Self::anc(pax, l) implies (
        #[trigger] of_.spec_get(l, q)) == o0.spec_get(l, q) by {
            let s = d - l;
            let rq = Self::region_of(q, s);
            if rq == rp {
                assert forall|j: int|
                    #![trigger Self::anc(pax, j)]
                    1 <= j < lvl + 1 && s == d - j implies q != Self::anc(pax, j) by {
                    assert(j == l);
                }
                Self::lemma_untouched_cell(pax, d, lvl + 1, oldvec, vecfinal, q, s);
            }
        }
        // the ancestors
        assert forall|l: int| lvl < l <= d implies #[trigger] of_.spec_get(l, Self::anc(pax, l))
            == o0.spec_get(l, Self::anc(pax, l)) by {
            let a = Self::anc(pax, l);
            Self::lemma_anc_region(pax, l, d);
            Self::lemma_anc_in_range(pax, l);
            let ca = cell_index(a, d - l);
            Self::lemma_cell_index_bounds(a, d - l);
            assert(vecfinal[ca] == oldvec[ca]);
        }
        assert forall|l: int| 1 <= l <= lvl implies Self::bubble_rel(
            bubble_fn,
            l,
            Seq::new(8, |i: int| of_.spec_get(l - 1, Self::child_ax(Self::anc(pax, l), i))),
            o0.spec_get(l, Self::anc(pax, l)),
            of_.spec_get(l, Self::anc(pax, l)),
            if l < lvl {
                true
            } else {
                went
            },
        ) by {
            let a = Self::anc(pax, l);
            Self::lemma_anc_region(pax, l, d);
            Self::lemma_anc_in_range(pax, l);
            let ca = cell_index(a, d - l);
            Self::lemma_cell_index_bounds(a, d - l);
            let c0: bool = if l < lvl {
                true
            } else {
                went
            };
            {
                assert(Self::recorded(bubble_fn, pax, d, l, oldvec, vecfinal, c0));
                let kids0 = choose|kids0: [T; 8]|
                    #![trigger call_ensures(bubble_fn, (l as u8, kids0, oldvec[cell_index(Self::anc(pax, l), d - l)]), (vecfinal[cell_index(Self::anc(pax, l), d - l)], c0))]
                    {
                        &&& (forall|i: int|
                            0 <= i < 8 ==> #[trigger] kids0@[i] == vecfinal[cell_index(
                                Self::child_ax(Self::anc(pax, l), i),
                                d - l + 1,
                            )])
                        &&& call_ensures(
                            bubble_fn,
                            (l as u8, kids0, oldvec[cell_index(Self::anc(pax, l), d - l)]),
                            (vecfinal[cell_index(Self::anc(pax, l), d - l)], c0),
                        )
                    };
                assert forall|i: int| 0 <= i < 8 implies #[trigger] kids0@[i] == of_.spec_get(
                    l - 1,
                    Self::child_ax(a, i),
                ) by {
                    let ch = Self::child_ax(a, i);
                    Self::lemma_child_in_range(pax, l, i);
                    lemma2_to64();
                    vstd::arithmetic::power2::lemma_pow2_pos((d - l) as nat);
                    lemma_pow2_adds(1, (d - l) as nat);
                    vstd::arithmetic::div_mod::lemma_fundamental_div_mod_converse(
                        ch.0,
                        2,
                        a.0,
                        i % 2,
                    );
                    vstd::arithmetic::div_mod::lemma_fundamental_div_mod_converse(
                        ch.1,
                        2,
                        a.1,
                        (i / 2) % 2,
                    );
                    vstd::arithmetic::div_mod::lemma_fundamental_div_mod_converse(
                        ch.2,
                        2,
                        a.2,
                        i / 4,
                    );
                    Self::lemma_div_div(ch.0, 2, pow2((d - l) as nat) as int);
                    Self::lemma_div_div(ch.1, 2, pow2((d - l) as nat) as int);
                    Self::lemma_div_div(ch.2, 2, pow2((d - l) as nat) as int);
                    assert(Self::region_of(ch, d - l + 1) == Self::region_of(a, d - l));
                }
                assert(kids0@ =~= Seq::new(
                    8,
                    |i: int| of_.spec_get(l - 1, Self::child_ax(Self::anc(pax, l), i)),
                ));
                assert(of_.spec_get(l, a) == vecfinal[ca]);
                assert(oa.spec_get(l, a) == oldvec[ca]);
                assert(call_ensures(
                    bubble_fn,
                    (l as u8, kids0, o0.spec_get(l, Self::anc(pax, l))),
                    (of_.spec_get(l, Self::anc(pax, l)), c0),
                ));
            }
        }
    }

    /// Prepares a best-first search: `weight_fn` keys the exploration (a
    /// parent's weight must bound its children's from below, and rejecting a
    /// node prunes its subtree), and `filter_fn` decides from a node's
    /// aggregate whether its subtree is worth entering and its leaves worth
    /// yielding.
    pub fn find<'a, W: Fn(u8, ZOrder<i64>) -> Option<u64>, F: Fn(&T) -> bool>(
        &'a self,
        weight_fn: W,
        filter_fn: F,
    ) -> (r: ChunkedOctreeIterator<'a, T, W, F>)
        requires
            self.wf(),
            forall|l: u8, p: ZOrder<i64>| call_requires(weight_fn, (l, p)),
            forall|v: T| call_requires(filter_fn, (&v,)),
            forall|l: u8, p: ZOrder<i64>, c: ZOrder<i64>, w1: u64, w2: u64|
                1 <= l && #[trigger] call_ensures(weight_fn, (l, p), Some(w1))
                    && #[trigger] call_ensures(weight_fn, ((l - 1) as u8, c), Some(w2))
                    && is_child((c.sx(), c.sy(), c.sz()), (p.sx(), p.sy(), p.sz())) ==> w1 <= w2,
        ensures
            r.wf(),
            r.octree == self,
            r.weight_fn == weight_fn,
            r.filter_fn == filter_fn,
            r.weight_floor@ == 0,
            r.processing.items@.len() == 0,
    {
        ChunkedOctreeIterator {
            octree: self,
            weight_fn,
            filter_fn,
            checked_regions: Vec::new(),
            processing: MinQueue::new(),
            weight_floor: Ghost(0),
        }
    }
}

/// One queued search node: a node position, its level and its weight.
#[derive(Clone, Copy, PartialEq, Eq, Structural, Debug)]
pub struct HeapNode {
    pub weight: u64,
    pub level: u8,
    pub pos: i64,
}

/// The exploration cost still reachable from a queue: every level-`l` node
/// may expand into a full subtree of `start_index(l + 1)` further nodes.
pub open spec fn q_measure(s: Seq<HeapNode>) -> int
    decreases s.len(),
{
    if s.len() == 0 {
        0
    } else {
        q_measure(s.drop_last()) + start_index(s.last().level + 1)
    }
}

pub proof fn lemma_q_measure_push(s: Seq<HeapNode>, n: HeapNode)
    ensures
        q_measure(s.push(n)) == q_measure(s) + start_index(n.level + 1),
{
    assert(s.push(n).drop_last() =~= s);
    assert(s.push(n).last() == n);
}

pub proof fn lemma_q_measure_remove(s: Seq<HeapNode>, k: int)
    requires
        0 <= k < s.len(),
    ensures
        q_measure(s.remove(k)) == q_measure(s) - start_index(s[k].level + 1),
    decreases s.len(),
{
    if k == s.len() - 1 {
        assert(s.remove(k) =~= s.drop_last());
    } else {
        assert(s.remove(k).drop_last() =~= s.drop_last().remove(k));
        lemma_q_measure_remove(s.drop_last(), k);
        assert(s.remove(k).last() == s.last());
        assert(s.drop_last()[k] == s[k]);
    }
}

pub proof fn lemma_q_measure_nonneg(s: Seq<HeapNode>)
    ensures
        q_measure(s) >= 0,
    decreases s.len(),
{
    if s.len() > 0 {
        lemma_q_measure_nonneg(s.drop_last());
        lemma_start_monotone(0, s.last().level + 1);
    }
}

/// A queue of search nodes handing out a node of least weight first.
pub struct MinQueue {
    pub items: Vec<HeapNode>,
}

impl MinQueue {
    /// An empty queue.
    pub fn new() -> (r: MinQueue)
        ensures
            r.items@.len() == 0,
    {
        MinQueue { items: Vec::new() }
    }

    pub fn len(&self) -> (r: usize)
        ensures
            r == self.items@.len(),
    {
        self.items.len()
    }

    /// Enqueues a node.
    pub fn push(&mut self, n: HeapNode)
        ensures
            final(self).items@ == old(self).items@.push(n),
    {
        self.items.push(n);
    }

    /// Removes and returns a node of least weight, or nothing when empty.
    pub fn pop_min(&mut self) -> (r: Option<HeapNode>)
        ensures
            match r {
                Option::None => old(self).items@.len() == 0 && final(self).items@ == old(self).items@,
                Option::Some(n) => {
                    &&& old(self).items@.len() > 0
                    &&& exists|k: int|
                        0 <= k < old(self).items@.len() && old(self).items@[k] == n && final(self).items@ == #[trigger] old(self).items@.remove(k)
                    &&& forall|m: int|
                        0 <= m < old(self).items@.len() ==> n.weight <= (#[trigger] old(self).items@[m]).weight
                },
            },
    {
        if self.items.len() == 0 {
            return None;
        }
        let mut best: usize = 0;
        let mut k: usize = 1;
        while k < self.items.len()
            invariant
                best < k <= self.items@.len(),
                self.items@.len() > 0,
                forall|m: int|
                    0 <= m < k ==> self.items@[best as int].weight <= (
                    #[trigger] self.items@[m]).weight,
            decreases self.items@.len() - k,
        {
            if self.items[k].weight < self.items[best].weight {
                best = k;
            }
            k = k + 1;
        }
        let n = self.items[best];
        let ghost q0 = self.items@;
        self.items.remove(best);
        proof {
            assert(q0[best as int] == n && self.items@ == q0.remove(best as int));
        }
        Some(n)
    }
}

/// A lazy best-first search over a `ChunkedOctree`: nodes wait in a queue
/// keyed by the caller's weight, subtrees whose aggregate fails the caller's
/// filter are skipped, and leaves come out in non-decreasing weight.
pub struct ChunkedOctreeIterator<'a, T: BlockData, W: Fn(u8, ZOrder<i64>) -> Option<u64>, F: Fn(
    &T,
) -> bool> {
    pub octree: &'a ChunkedOctree<T>,
    pub weight_fn: W,
    pub filter_fn: F,
    pub checked_regions: Vec<u64>,
    pub processing: MinQueue,
    pub weight_floor: Ghost<u64>,
}

/// Whether `ca` is one of the eight children of the node at `pa`.
pub open spec fn is_child(ca: (int, int, int), pa: (int, int, int)) -> bool {
    &&& (ca.0 == 2 * pa.0 || ca.0 == 2 * pa.0 + 1)
    &&& (ca.1 == 2 * pa.1 || ca.1 == 2 * pa.1 + 1)
    &&& (ca.2 == 2 * pa.2 || ca.2 == 2 * pa.2 + 1)
}

/// The coordinates of a queued node.
pub open spec fn hn_ax(n: HeapNode) -> (int, int, int) {
    (
        <i64 as ZOrderStore>::axis(n.pos, 0),
        <i64 as ZOrderStore>::axis(n.pos, 1),
        <i64 as ZOrderStore>::axis(n.pos, 2),
    )
}

impl<'a, T: BlockData, W: Fn(u8, ZOrder<i64>) -> Option<u64>, F: Fn(&T) -> bool> ChunkedOctreeIterator<
    'a,
    T,
    W,
    F,
> {
    /// The caller's functions can always be called, and the weight of a node
    /// never exceeds any of its children's: a parent's weight is a lower
    /// bound for its subtree, which makes the best-first order sound.
    pub open spec fn fns_ok(self) -> bool {
        &&& forall|l: u8, p: ZOrder<i64>| call_requires(self.weight_fn, (l, p))
        &&& forall|v: T| call_requires(self.filter_fn, (&v,))
        &&& forall|l: u8, p: ZOrder<i64>, c: ZOrder<i64>, w1: u64, w2: u64|
            1 <= l && #[trigger] call_ensures(self.weight_fn, (l, p), Some(w1))
                && #[trigger] call_ensures(self.weight_fn, ((l - 1) as u8, c), Some(w2))
                && is_child((c.sx(), c.sy(), c.sz()), (p.sx(), p.sy(), p.sz())) ==> w1 <= w2
    }

    /// What holds of every queued node: it is a well-formed node of the
    /// octree, its weight is one the caller's weight function gave it and
    /// lies at or above the weight weight_floor, and the aggregates of the node and
    /// all its ancestors passed the caller's filter.
    pub open spec fn node_ok(self, n: HeapNode) -> bool {
        &&& n.level <= self.octree.depth
        &&& <i64 as ZOrderStore>::raw_wf(n.pos)
        &&& ChunkedOctree::<T>::node_in_range(hn_ax(n))
        &&& n.weight >= self.weight_floor@
        &&& call_ensures(self.weight_fn, (n.level, ZOrder(n.pos)), Some(n.weight))
        &&& forall|l: int|
            #![trigger ChunkedOctree::<T>::anc(hn_ax(n), l - n.level)]
            n.level <= l <= self.octree.depth ==> call_ensures(
                self.filter_fn,
                (&self.octree.spec_get(l, ChunkedOctree::<T>::anc(hn_ax(n), l - n.level)),),
                true,
            )
    }

    pub open spec fn wf(self) -> bool {
        &&& self.octree.wf()
        &&& self.fns_ok()
        &&& forall|k: int|
            0 <= k < self.processing.items@.len() ==> self.node_ok(
                #[trigger] self.processing.items@[k],
            )
    }

    /// The exact outcome of offering the node at `node_pos` on `level` to
    /// the queue: either the caller's weight function weighed it, the filter
    /// accepted its aggregate, and exactly that node was appended; or the
    /// queue is unchanged, with evidence that the offer was turned away.
    pub open spec fn offer_outcome(
        oct: ChunkedOctree<T>,
        weight_fn: W,
        filter_fn: F,
        q0: Seq<HeapNode>,
        q1: Seq<HeapNode>,
        level: u8,
        node_pos: ZOrder<i64>,
    ) -> bool {
        ||| exists|w: u64|
            #![trigger call_ensures(weight_fn, (level, node_pos), Some(w))]
            {
                &&& call_ensures(weight_fn, (level, node_pos), Some(w))
                &&& call_ensures(
                    filter_fn,
                    (&oct.spec_get(level as int, (node_pos.sx(), node_pos.sy(), node_pos.sz())),),
                    true,
                )
                &&& q1 == q0.push(HeapNode { weight: w, level, pos: node_pos.0 })
            }
        ||| (q1 == q0 && Self::offer_rejected(oct, weight_fn, filter_fn, level, node_pos))
    }

    /// Evidence that an offered node could not enter the queue: the weight
    /// function returned nothing for it, or it returned a weight and the
    /// filter rejected the node's aggregate.
    pub open spec fn offer_rejected(
        oct: ChunkedOctree<T>,
        weight_fn: W,
        filter_fn: F,
        level: u8,
        node_pos: ZOrder<i64>,
    ) -> bool {
        ||| call_ensures(weight_fn, (level, node_pos), Option::<u64>::None)
        ||| exists|w: u64|
            #![trigger call_ensures(weight_fn, (level, node_pos), Some(w))]
            (call_ensures(weight_fn, (level, node_pos), Some(w)) && call_ensures(
                filter_fn,
                (&oct.spec_get(level as int, (node_pos.sx(), node_pos.sy(), node_pos.sz())),),
                false,
            ))
    }

    /// A node with the given coordinates sits in the queue on `level`.
    pub open spec fn node_enqueued(post: Self, level: u8, p: (int, int, int)) -> bool {
        exists|k: int|
            #![trigger post.processing.items@[k]]
            0 <= k < post.processing.items@.len() && post.processing.items@[k].level == level
                && hn_ax(post.processing.items@[k]) == p
    }

    /// Evidence that the node with the given coordinates was offered on
    /// `level` and turned away.
    pub open spec fn node_rejected(pre: Self, level: u8, p: (int, int, int)) -> bool {
        exists|z: ZOrder<i64>|
            #![trigger Self::offer_rejected(*pre.octree, pre.weight_fn, pre.filter_fn, level, z)]
            z.wf() && (z.sx(), z.sy(), z.sz()) == p && Self::offer_rejected(
                *pre.octree,
                pre.weight_fn,
                pre.filter_fn,
                level,
                z,
            )
    }

    /// The wrapped coordinates of the region `(dx, dy, dz)` steps away from
    /// the region at `rg`.
    pub open spec fn offset_region(rg: (int, int, int), dx: int, dy: int, dz: int) -> (
        int,
        int,
        int,
    ) {
        (
            wrap_axis(rg.0 + dx, 21, true),
            wrap_axis(rg.1 + dy, 21, true),
            wrap_axis(rg.2 + dz, 21, true),
        )
    }

    /// Whether `p` is the region at `rg` or one of its 26 neighbors,
    /// axis-wise, wrapping at the coordinate space's edge.
    pub open spec fn neighbor_region(rg: (int, int, int), p: (int, int, int)) -> bool {
        &&& (p.0 == wrap_axis(rg.0 - 1, 21, true) || p.0 == wrap_axis(rg.0, 21, true) || p.0
            == wrap_axis(rg.0 + 1, 21, true))
        &&& (p.1 == wrap_axis(rg.1 - 1, 21, true) || p.1 == wrap_axis(rg.1, 21, true) || p.1
            == wrap_axis(rg.1 + 1, 21, true))
        &&& (p.2 == wrap_axis(rg.2 - 1, 21, true) || p.2 == wrap_axis(rg.2, 21, true) || p.2
            == wrap_axis(rg.2 + 1, 21, true))
    }

    /// How a search accounts for the candidate region at `p`: it was checked
    /// before, no update ever touched it, its root now waits in the queue, or
    /// the weight function or the filter turned its root away.
    pub open spec fn seed_covered(pre: Self, post: Self, p: (int, int, int)) -> bool {
        let key = region_key(p.0, p.1, p.2) as u64;
        ||| pre.checked_regions@.contains(key)
        ||| !pre.octree.chunks@.contains_key(key)
        ||| Self::node_enqueued(post, pre.octree.depth, p)
        ||| Self::node_rejected(pre, pre.octree.depth, p)
    }

    /// Every region key a search adds to the checked list is accounted for:
    /// some in-range region with that key was enqueued or turned away.
    pub open spec fn key_covered(pre: Self, post: Self, key: u64) -> bool {
        exists|p: (int, int, int)|
            #![trigger region_key(p.0, p.1, p.2)]
            ChunkedOctree::<T>::node_in_range(p) && region_key(p.0, p.1, p.2) == key && (
            Self::node_enqueued(post, pre.octree.depth, p) || Self::node_rejected(
                pre,
                pre.octree.depth,
                p,
            ))
    }

    /// How an expansion accounts for one candidate child at `ca`: its
    /// coordinates leave the coordinate space, or it now waits in the queue,
    /// or the weight function or the filter turned it away.
    pub open spec fn child_covered(pre: Self, post: Self, level: u8, ca: (int, int, int)) -> bool {
        ||| !ChunkedOctree::<T>::node_in_range(ca)
        ||| Self::node_enqueued(post, level, ca)
        ||| Self::node_rejected(pre, level, ca)
    }

    /// Seeds the search with the region containing `node_pos` and its 26
    /// neighbors. Each candidate region is accounted for: regions never
    /// touched by an update hold nothing and are not entered, regions checked
    /// before are not entered twice, and every other candidate's root is
    /// weighed and filtered and enters the queue exactly when both accept it.
    /// Nothing but such roots is added.
    pub fn search(self, node_pos: ZOrder<i64>) -> (r: Self)
        requires
            self.wf(),
            node_pos.wf(),
            self.weight_floor@ == 0,
        ensures
            r.wf(),
            r.octree == self.octree,
            r.weight_fn == self.weight_fn,
            r.filter_fn == self.filter_fn,
            r.weight_floor@ == 0,
            r.processing.items@.len() >= self.processing.items@.len(),
            forall|k: int|
                0 <= k < self.processing.items@.len() ==> #[trigger] r.processing.items@[k]
                    == self.processing.items@[k],
            // seeding adds at most the twenty-seven region roots' exploration
            q_measure(r.processing.items@) <= q_measure(self.processing.items@) + 27
                * start_index(self.octree.depth + 1),
            ({
                let rg = ChunkedOctree::<T>::region_of(
                    (node_pos.sx(), node_pos.sy(), node_pos.sz()),
                    self.octree.depth as int,
                );
                &&& forall|k: int|
                    self.processing.items@.len() <= k < r.processing.items@.len() ==> (
                    #[trigger] r.processing.items@[k]).level == self.octree.depth
                        && Self::neighbor_region(rg, hn_ax(r.processing.items@[k]))
                &&& forall|dx: int, dy: int, dz: int|
                    #![trigger Self::offset_region(rg, dx, dy, dz)]
                    -1 <= dx <= 1 && -1 <= dy <= 1 && -1 <= dz <= 1 ==> Self::seed_covered(
                        self,
                        r,
                        Self::offset_region(rg, dx, dy, dz),
                    )
            }),
    {
        let mut it = self;
        let ghost orig = self;
        let depth = it.octree.depth();
        let region_pos = node_pos.shr(depth as usize);
        let ghost rg = (region_pos.sx(), region_pos.sy(), region_pos.sz());
        proof {
            <i64 as ZOrderStore>::lemma_axis_range(region_pos.0, 0);
            <i64 as ZOrderStore>::lemma_axis_range(region_pos.0, 1);
            <i64 as ZOrderStore>::lemma_axis_range(region_pos.0, 2);
            lemma2_to64();
        }
        let mut o: u8 = 0;
        while o < 27
            invariant
                o <= 27,
                it.wf(),
                it.octree == orig.octree,
                it.weight_fn == orig.weight_fn,
                it.filter_fn == orig.filter_fn,
                it.weight_floor@ == 0,
                orig.wf(),
                region_pos.wf(),
                rg == (region_pos.sx(), region_pos.sy(), region_pos.sz()),
                rg == ChunkedOctree::<T>::region_of(
                    (node_pos.sx(), node_pos.sy(), node_pos.sz()),
                    orig.octree.depth as int,
                ),
                ChunkedOctree::<T>::node_in_range(rg),
                it.processing.items@.len() >= orig.processing.items@.len(),
                forall|k: int|
                    0 <= k < orig.processing.items@.len() ==> #[trigger] it.processing.items@[k]
                        == orig.processing.items@[k],
                forall|k: int|
                    orig.processing.items@.len() <= k < it.processing.items@.len() ==> (
                    #[trigger] it.processing.items@[k]).level == orig.octree.depth
                        && Self::neighbor_region(rg, hn_ax(it.processing.items@[k])),
                it.checked_regions@.len() >= orig.checked_regions@.len(),
                forall|m: int|
                    0 <= m < orig.checked_regions@.len() ==> #[trigger] it.checked_regions@[m]
                        == orig.checked_regions@[m],
                forall|m: int|
                    orig.checked_regions@.len() <= m < it.checked_regions@.len()
                        ==> Self::key_covered(orig, it, #[trigger] it.checked_regions@[m]),
                forall|oo: int|
                    0 <= oo < o ==> Self::seed_covered(
                        orig,
                        it,
                        #[trigger] Self::offset_region(rg, oo / 9 - 1, (oo / 3) % 3 - 1, oo % 3 - 1),
                    ),
                q_measure(it.processing.items@) <= q_measure(orig.processing.items@) + o
                    * start_index(orig.octree.depth + 1),
            decreases 27 - o,
        {
            let dx = (o / 9) as i32 - 1;
            let dy = ((o / 3) % 3) as i32 - 1;
            let dz = (o % 3) as i32 - 1;
            proof {
                lemma2_to64();
                <i64 as ZOrderStore>::lemma_store_props();
            }
            let offset = ZOrder::<i64>::new_unchecked(dx, dy, dz);
            let target = region_pos.add(offset);
            let ghost p = Self::offset_region(rg, dx as int, dy as int, dz as int);
            let ghost it_pre = it;
            proof {
                assert((target.sx(), target.sy(), target.sz()) == p);
                crate::z_order_store::lemma_wrap_axis_in_range(rg.0 + dx, 21, true);
                crate::z_order_store::lemma_wrap_axis_in_range(rg.1 + dy, 21, true);
                crate::z_order_store::lemma_wrap_axis_in_range(rg.2 + dz, 21, true);
                assert(ChunkedOctree::<T>::node_in_range(p));
            }
            it.search_region(target);
            proof {
                let key = region_key(p.0, p.1, p.2) as u64;
                let d = orig.octree.depth;
                // the queue grew by at most one region root
                assert(q_measure(it.processing.items@) <= q_measure(it_pre.processing.items@)
                    + start_index(d + 1)) by {
                    if it.processing.items@ != it_pre.processing.items@ {
                        lemma_q_measure_push(
                            it_pre.processing.items@,
                            it.processing.items@.last(),
                        );
                        assert(it.processing.items@.last().level == d);
                        lemma_start_monotone(0, d + 1);
                    } else {
                        lemma_start_monotone(0, d + 1);
                        lemma_q_measure_nonneg(it_pre.processing.items@);
                    }
                }
                assert((o + 1) * start_index(d + 1) == o * start_index(d + 1) + start_index(
                    d + 1,
                )) by (nonlinear_arith);
                // the current candidate is accounted for
                assert(Self::seed_covered(orig, it, p)) by {
                    if it_pre == it {
                        // skipped: the key was checked already or the region
                        // is absent
                        if it_pre.checked_regions@.contains(key) {
                            let m = choose|m: int|
                                0 <= m < it_pre.checked_regions@.len() && it_pre.checked_regions@[m]
                                    == key;
                            if m < orig.checked_regions@.len() {
                                assert(orig.checked_regions@[m] == key);
                                assert(orig.checked_regions@.contains(key));
                            } else {
                                assert(Self::key_covered(orig, it_pre, key));
                                let p2 = choose|p2: (int, int, int)|
                                    ChunkedOctree::<T>::node_in_range(p2) && (
                                    #[trigger] region_key(p2.0, p2.1, p2.2)) == key && (
                                    Self::node_enqueued(it_pre, d, p2) || Self::node_rejected(
                                        orig,
                                        d,
                                        p2,
                                    ));
                                lemma_region_key_injective(p2, p);
                                assert(p2 == p);
                            }
                        }
                    } else {
                        // freshly seeded: the offer's outcome carries over
                        if !(it_pre.checked_regions@.contains(key)
                            || !it_pre.octree.chunks@.contains_key(key)) {
                            if it.processing.items@ != it_pre.processing.items@ {
                                let w = choose|w: u64|
                                    #![trigger call_ensures(it_pre.weight_fn, (d, target), Some(w))]
                                    {
                                        &&& call_ensures(it_pre.weight_fn, (d, target), Some(w))
                                        &&& call_ensures(
                                            it_pre.filter_fn,
                                            (&it_pre.octree.spec_get(
                                                d as int,
                                                (target.sx(), target.sy(), target.sz()),
                                            ),),
                                            true,
                                        )
                                        &&& it.processing.items@
                                            == it_pre.processing.items@.push(
                                            HeapNode { weight: w, level: d, pos: target.0 },
                                        )
                                    };
                                let ki = it_pre.processing.items@.len() as int;
                                assert(it.processing.items@[ki] == HeapNode {
                                    weight: w,
                                    level: d,
                                    pos: target.0,
                                });
                                assert(hn_ax(it.processing.items@[ki]) == p);
                                assert(Self::node_enqueued(it, d, p));
                            } else {
                                assert(Self::offer_rejected(
                                    *orig.octree,
                                    orig.weight_fn,
                                    orig.filter_fn,
                                    d,
                                    target,
                                ));
                                assert(Self::node_rejected(orig, d, p));
                            }
                        }
                    }
                }
                // earlier candidates stay accounted for: the queue only grew
                assert forall|oo: int| 0 <= oo < o + 1 implies Self::seed_covered(
                    orig,
                    it,
                    #[trigger] Self::offset_region(rg, oo / 9 - 1, (oo / 3) % 3 - 1, oo % 3 - 1),
                ) by {
                    if oo < o {
                        let pp = Self::offset_region(rg, oo / 9 - 1, (oo / 3) % 3 - 1, oo % 3 - 1);
                        assert(Self::seed_covered(orig, it_pre, pp));
                        if Self::node_enqueued(it_pre, d, pp) {
                            let kk = choose|kk: int|
                                0 <= kk < it_pre.processing.items@.len() && (
                                #[trigger] it_pre.processing.items@[kk]).level == d && hn_ax(
                                    it_pre.processing.items@[kk],
                                ) == pp;
                            assert(it.processing.items@[kk] == it_pre.processing.items@[kk]);
                            assert(Self::node_enqueued(it, d, pp));
                        }
                    } else {
                        assert(oo / 9 - 1 == dx as int && (oo / 3) % 3 - 1 == dy as int && oo % 3
                            - 1 == dz as int);
                    }
                }
                // new checked keys stay accounted for
                assert forall|m: int|
                    orig.checked_regions@.len() <= m < it.checked_regions@.len()
                        implies Self::key_covered(orig, it, #[trigger] it.checked_regions@[m]) by {
                    if m < it_pre.checked_regions@.len() {
                        assert(Self::key_covered(orig, it_pre, it_pre.checked_regions@[m]));
                        let p2 = choose|p2: (int, int, int)|
                            ChunkedOctree::<T>::node_in_range(p2) && (#[trigger] region_key(
                                p2.0,
                                p2.1,
                                p2.2,
                            )) == it_pre.checked_regions@[m] && (Self::node_enqueued(it_pre, d, p2)
                                || Self::node_rejected(orig, d, p2));
                        if Self::node_enqueued(it_pre, d, p2) {
                            let kk = choose|kk: int|
                                0 <= kk < it_pre.processing.items@.len() && (
                                #[trigger] it_pre.processing.items@[kk]).level == d && hn_ax(
                                    it_pre.processing.items@[kk],
                                ) == p2;
                            assert(it.processing.items@[kk] == it_pre.processing.items@[kk]);
                            assert(Self::node_enqueued(it, d, p2));
                        }
                        assert(it.checked_regions@[m] == it_pre.checked_regions@[m]);
                    } else {
                        // the key pushed this step
                        assert(it.checked_regions@[m] == key);
                        assert(Self::seed_covered(orig, it, p));
                        assert(!it_pre.checked_regions@.contains(key));
                        if orig.checked_regions@.contains(key) {
                            let m0 = choose|m0: int|
                                0 <= m0 < orig.checked_regions@.len() && orig.checked_regions@[m0]
                                    == key;
                            assert(it_pre.checked_regions@[m0] == key);
                            assert(it_pre.checked_regions@.contains(key));
                            assert(false);
                        }
                        assert(orig.octree.chunks@.contains_key(key));
                        assert(Self::node_enqueued(it, d, p) || Self::node_rejected(orig, d, p));
                        assert(Self::key_covered(orig, it, key));
                    }
                }
            }
            o = o + 1;
        }
        proof {
            assert forall|dx: int, dy: int, dz: int|
                -1 <= dx <= 1 && -1 <= dy <= 1 && -1 <= dz <= 1 implies Self::seed_covered(
                orig,
                it,
                #[trigger] Self::offset_region(rg, dx, dy, dz),
            ) by {
                let oo = (dx + 1) * 9 + (dy + 1) * 3 + (dz + 1);
                assert(0 <= oo < 27);
                assert(oo / 9 - 1 == dx && (oo / 3) % 3 - 1 == dy && oo % 3 - 1 == dz);
                assert(Self::seed_covered(
                    orig,
                    it,
                    Self::offset_region(rg, oo / 9 - 1, (oo / 3) % 3 - 1, oo % 3 - 1),
                ));
            }
        }
        it
    }

    /// Seeds one region, at most once, if any update has touched it.
    fn search_region(&mut self, region_pos: ZOrder<i64>)
        requires
            old(self).wf(),
            region_pos.wf(),
            old(self).weight_floor@ == 0,
        ensures
            final(self).wf(),
            final(self).octree == old(self).octree,
            final(self).weight_fn == old(self).weight_fn,
            final(self).filter_fn == old(self).filter_fn,
            final(self).weight_floor@ == old(self).weight_floor@,
            ({
                let key = region_key(region_pos.sx(), region_pos.sy(), region_pos.sz()) as u64;
                ||| ((old(self).checked_regions@.contains(key) || !old(self).octree.chunks@.contains_key(key)) && *final(self) == *old(self))
                ||| ({
                    &&& !old(self).checked_regions@.contains(key)
                    &&& old(self).octree.chunks@.contains_key(key)
                    &&& final(self).checked_regions@ == old(self).checked_regions@.push(key)
                    &&& Self::offer_outcome(
                        *old(self).octree,
                        old(self).weight_fn,
                        old(self).filter_fn,
                        old(self).processing.items@,
                        final(self).processing.items@,
                        old(self).octree.depth,
                        region_pos,
                    )
                })
            }),
    {
        let key = ChunkedOctree::<T>::region_key_exec(region_pos);
        let mut seen = false;
        let mut k: usize = 0;
        while k < self.checked_regions.len()
            invariant
                k <= self.checked_regions@.len(),
                *self == *old(self),
                seen <==> exists|m: int|
                    0 <= m < k && (#[trigger] self.checked_regions@[m]) == key,
            decreases self.checked_regions@.len() - k,
        {
            if self.checked_regions[k] == key {
                seen = true;
            }
            k = k + 1;
        }
        proof {
            assert(seen <==> self.checked_regions@.contains(key));
        }
        if !seen && self.octree.chunks.contains_key(&key) {
            self.checked_regions.push(key);
            let depth = self.octree.depth();
            self.push_node(depth, region_pos);
        }
    }

    /// Offers one node to the queue: it enters if the caller's weight
    /// function gives it a weight and its aggregate passes the filter.
    fn push_node(&mut self, level: u8, node_pos: ZOrder<i64>)
        requires
            old(self).wf(),
            node_pos.wf(),
            level <= old(self).octree.depth,
            forall|w: u64|
                call_ensures(old(self).weight_fn, (level, node_pos), Some(w)) ==> w >= old(self).weight_floor@,
            forall|l: int|
                #![trigger ChunkedOctree::<T>::anc((node_pos.sx(), node_pos.sy(), node_pos.sz()), l - level)]
                level < l <= old(self).octree.depth ==> call_ensures(
                    old(self).filter_fn,
                    (&old(self).octree.spec_get(
                        l,
                        ChunkedOctree::<T>::anc(
                            (node_pos.sx(), node_pos.sy(), node_pos.sz()),
                            l - level,
                        ),
                    ),),
                    true,
                ),
        ensures
            final(self).wf(),
            final(self).octree == old(self).octree,
            final(self).weight_fn == old(self).weight_fn,
            final(self).filter_fn == old(self).filter_fn,
            final(self).weight_floor@ == old(self).weight_floor@,
            final(self).checked_regions == old(self).checked_regions,
            Self::offer_outcome(
                *old(self).octree,
                old(self).weight_fn,
                old(self).filter_fn,
                old(self).processing.items@,
                final(self).processing.items@,
                level,
                node_pos,
            ),
    {
        proof {
            <i64 as ZOrderStore>::lemma_axis_range(node_pos.0, 0);
            <i64 as ZOrderStore>::lemma_axis_range(node_pos.0, 1);
            <i64 as ZOrderStore>::lemma_axis_range(node_pos.0, 2);
            lemma2_to64();
        }
        let w_opt = (self.weight_fn)(level, node_pos);
        match w_opt {
            Option::Some(weight) => {
                let v = self.octree.get(level, node_pos);
                if (self.filter_fn)(&v) {
                    let n = HeapNode { weight, level, pos: node_pos.raw() };
                    proof {
                        let a = hn_ax(n);
                        assert(a == (node_pos.sx(), node_pos.sy(), node_pos.sz()));
                        assert(ChunkedOctree::<T>::anc(a, 0) == a) by {
                            lemma2_to64();
                            vstd::arithmetic::div_mod::lemma_div_basics(a.0);
                            vstd::arithmetic::div_mod::lemma_div_basics(a.1);
                            vstd::arithmetic::div_mod::lemma_div_basics(a.2);
                        }
                        assert forall|l: int|
                            #![trigger ChunkedOctree::<T>::anc(hn_ax(n), l - n.level)]
                            n.level <= l <= self.octree.depth implies call_ensures(
                            self.filter_fn,
                            (&self.octree.spec_get(
                                l,
                                ChunkedOctree::<T>::anc(hn_ax(n), l - n.level),
                            ),),
                            true,
                        ) by {
                            if l > level {
                                assert(call_ensures(
                                    self.filter_fn,
                                    (&self.octree.spec_get(
                                        l,
                                        ChunkedOctree::<T>::anc(
                                            (node_pos.sx(), node_pos.sy(), node_pos.sz()),
                                            l - level,
                                        ),
                                    ),),
                                    true,
                                ));
                            }
                        }
                        assert(self.node_ok(n));
                    }
                    self.processing.push(n);
                } else {
                    proof {
                        assert(Self::offer_rejected(
                            *self.octree,
                            self.weight_fn,
                            self.filter_fn,
                            level,
                            node_pos,
                        ));
                    }
                }
            },
            Option::None => {
                proof {
                    assert(call_ensures(self.weight_fn, (level, node_pos), Option::<u64>::None));
                }
            },
        }
    }

    /// Removes and returns the next leaf: among the reachable leaves that
    /// pass the filter, one of least weight. Every leaf comes out at or
    /// above the weight weight_floor left by the one before, its aggregate and its
    /// ancestors' aggregates all passed the filter, and its weight is one
    /// the caller's weight function gave it.
    pub fn next(&mut self) -> (r: Option<(ZOrder<i64>, u64)>)
        requires
            old(self).wf(),
        ensures
            final(self).wf(),
            final(self).octree == old(self).octree,
            final(self).weight_fn == old(self).weight_fn,
            final(self).filter_fn == old(self).filter_fn,
            match r {
                Option::None => final(self).processing.items@.len() == 0 && final(self).weight_floor@
                    == old(self).weight_floor@,
                Option::Some((p, w)) => {
                    &&& p.wf()
                    &&& w >= old(self).weight_floor@
                    &&& final(self).weight_floor@ == w
                    &&& call_ensures(final(self).weight_fn, (0u8, p), Some(w))
                    &&& forall|l: int|
                        #![trigger ChunkedOctree::<T>::anc((p.sx(), p.sy(), p.sz()), l)]
                        0 <= l <= final(self).octree.depth ==> call_ensures(
                            final(self).filter_fn,
                            (&final(self).octree.spec_get(
                                l,
                                ChunkedOctree::<T>::anc((p.sx(), p.sy(), p.sz()), l),
                            ),),
                            true,
                        )
                },
            },
            // progress where nothing outside decides: a queue of leaves
            // cannot come up empty
            (old(self).processing.items@.len() > 0 && (forall|k: int|
                0 <= k < old(self).processing.items@.len() ==> (#[trigger] old(self).processing.items@[k]).level == 0)) ==> r is Some,
            // every call shrinks the remaining exploration, so an iteration
            // ends after finitely many leaves
            q_measure(final(self).processing.items@) <= q_measure(old(self).processing.items@),
            r is Some ==> q_measure(final(self).processing.items@) < q_measure(
                old(self).processing.items@,
            ),
    {
        let ghost all_leaves = old(self).processing.items@.len() > 0 && (forall|k: int|
            0 <= k < old(self).processing.items@.len() ==> (#[trigger] old(self).processing.items@[k]).level == 0);
        loop
            invariant
                self.wf(),
                self.octree == old(self).octree,
                self.weight_fn == old(self).weight_fn,
                self.filter_fn == old(self).filter_fn,
                self.weight_floor@ == old(self).weight_floor@,
                all_leaves == (old(self).processing.items@.len() > 0 && (forall|k: int|
                    0 <= k < old(self).processing.items@.len() ==> (#[trigger] old(self).processing.items@[k]).level == 0)),
                all_leaves ==> self.processing.items@ == old(self).processing.items@,
                q_measure(self.processing.items@) <= q_measure(old(self).processing.items@),
            decreases q_measure(self.processing.items@),
        {
            proof {
                lemma_q_measure_nonneg(self.processing.items@);
            }
            let ghost q0 = self.processing.items@;
            let popped = self.processing.pop_min();
            match popped {
                Option::None => {
                    proof {
                        if all_leaves {
                            assert(q0.len() == 0);
                            assert(false);
                        }
                    }
                    return None;
                },
                Option::Some(n) => {
                    proof {
                        let k = choose|k: int|
                            0 <= k < q0.len() && q0[k] == n && self.processing.items@
                                == #[trigger] q0.remove(k);
                        lemma_q_measure_remove(q0, k);
                        assert(self.node_ok(n));
                        assert forall|m: int|
                            0 <= m < self.processing.items@.len() implies self.node_ok(
                            #[trigger] self.processing.items@[m],
                        ) by {
                            assert(self.processing.items@[m] == if m < k {
                                q0[m]
                            } else {
                                q0[m + 1]
                            });
                        }
                    }
                    if n.level == 0 {
                        proof {
                            assert(start_index(1) == 1) by {
                                reveal_with_fuel(start_index, 2);
                            }
                            assert(q_measure(self.processing.items@) < q_measure(q0));
                        }
                        let p = ZOrder::<i64>(n.pos);
                        self.weight_floor = Ghost(n.weight);
                        proof {
                            let k = choose|k: int|
                                0 <= k < q0.len() && q0[k] == n && self.processing.items@
                                    == #[trigger] q0.remove(k);
                            assert forall|m: int|
                                0 <= m < self.processing.items@.len() implies self.node_ok(
                                #[trigger] self.processing.items@[m],
                            ) by {
                                assert(self.processing.items@[m] == if m < k {
                                    q0[m]
                                } else {
                                    q0[m + 1]
                                });
                            }
                        }
                        proof {
                            assert forall|l: int|
                                #![trigger ChunkedOctree::<T>::anc((p.sx(), p.sy(), p.sz()), l)]
                                0 <= l <= self.octree.depth implies call_ensures(
                                self.filter_fn,
                                (&self.octree.spec_get(
                                    l,
                                    ChunkedOctree::<T>::anc((p.sx(), p.sy(), p.sz()), l),
                                ),),
                                true,
                            ) by {
                                assert(hn_ax(n) == (p.sx(), p.sy(), p.sz()));
                                assert(call_ensures(
                                    self.filter_fn,
                                    (&self.octree.spec_get(
                                        l,
                                        ChunkedOctree::<T>::anc(hn_ax(n), l - n.level),
                                    ),),
                                    true,
                                ));
                            }
                        }
                        return Some((p, n.weight));
                    }
                    proof {
                        if all_leaves {
                            let k = choose|k: int|
                                0 <= k < q0.len() && q0[k] == n && self.processing.items@
                                    == #[trigger] q0.remove(k);
                            assert(old(self).processing.items@[k].level == 0);
                            assert(false);
                        }
                    }
                    let parent = ZOrder::<i64>(n.pos);
                    let ghost mprev = q_measure(self.processing.items@);
                    self.expand(n, parent);
                    proof {
                        assert(start_index(n.level as int + 1) == 8 * start_index(
                            n.level as int,
                        ) + 1);
                        assert(q_measure(self.processing.items@) < q_measure(q0));
                        lemma_q_measure_nonneg(self.processing.items@);
                    }
                },
            }
        }
    }

    /// Pushes the in-range children of a popped interior node, each one
    /// re-weighted and re-filtered.
    fn expand(&mut self, n: HeapNode, parent: ZOrder<i64>)
        requires
            old(self).wf(),
            old(self).node_ok(n),
            1 <= n.level,
            parent == ZOrder::<i64>(n.pos),
            forall|m: int|
                0 <= m < old(self).processing.items@.len() ==> old(self).node_ok(
                    #[trigger] old(self).processing.items@[m],
                ),
        ensures
            final(self).wf(),
            final(self).octree == old(self).octree,
            final(self).weight_fn == old(self).weight_fn,
            final(self).filter_fn == old(self).filter_fn,
            final(self).weight_floor@ == old(self).weight_floor@,
            q_measure(final(self).processing.items@) <= q_measure(old(self).processing.items@)
                + 8 * start_index(n.level as int),
            final(self).processing.items@.len() >= old(self).processing.items@.len(),
            forall|k: int|
                0 <= k < old(self).processing.items@.len() ==> #[trigger] final(self).processing.items@[k] == old(self).processing.items@[k],
            forall|k: int|
                old(self).processing.items@.len() <= k < final(self).processing.items@.len()
                    ==> (#[trigger] final(self).processing.items@[k]).level == n.level - 1
                    && is_child(hn_ax(final(self).processing.items@[k]), hn_ax(n)),
            forall|i: int|
                0 <= i < 8 ==> Self::child_covered(
                    *old(self),
                    *final(self),
                    (n.level - 1) as u8,
                    #[trigger] ChunkedOctree::<T>::child_ax(hn_ax(n), i),
                ),
    {
        proof {
            <i64 as ZOrderStore>::lemma_axis_range(n.pos, 0);
            <i64 as ZOrderStore>::lemma_axis_range(n.pos, 1);
            <i64 as ZOrderStore>::lemma_axis_range(n.pos, 2);
            lemma2_to64();
            <i64 as ZOrderStore>::lemma_store_props();
        }
        let xw = <i64 as ZOrderStore>::axis_wide(n.pos, 0);
        let yw = <i64 as ZOrderStore>::axis_wide(n.pos, 1);
        let zw = <i64 as ZOrderStore>::axis_wide(n.pos, 2);
        let mut i: u8 = 0;
        while i < 8
            invariant
                i <= 8,
                self.wf(),
                self.octree == old(self).octree,
                self.weight_fn == old(self).weight_fn,
                self.filter_fn == old(self).filter_fn,
                self.weight_floor@ == old(self).weight_floor@,
                old(self).node_ok(n),
                1 <= n.level <= self.octree.depth,
                parent == ZOrder::<i64>(n.pos),
                parent.wf(),
                xw as int == parent.sx() && yw as int == parent.sy() && zw as int == parent.sz(),
                -0x100000 <= xw < 0x100000,
                -0x100000 <= yw < 0x100000,
                -0x100000 <= zw < 0x100000,
                q_measure(self.processing.items@) <= q_measure(old(self).processing.items@) + i
                    * start_index(n.level as int),
                self.processing.items@.len() >= old(self).processing.items@.len(),
                forall|k: int|
                    0 <= k < old(self).processing.items@.len() ==> #[trigger] self.processing.items@[k] == old(self).processing.items@[k],
                forall|k: int|
                    old(self).processing.items@.len() <= k < self.processing.items@.len() ==> (
                    #[trigger] self.processing.items@[k]).level == n.level - 1 && is_child(
                        hn_ax(self.processing.items@[k]),
                        hn_ax(n),
                    ),
                forall|ii: int|
                    0 <= ii < i ==> Self::child_covered(
                        *old(self),
                        *self,
                        (n.level - 1) as u8,
                        #[trigger] ChunkedOctree::<T>::child_ax(hn_ax(n), ii),
                    ),
            decreases 8 - i,
        {
            let dx = (i & 1) as i64;
            let dy = ((i >> 1) & 1) as i64;
            let dz = ((i >> 2) & 1) as i64;
            proof {
                assert(i < 8 ==> (i & 1) < 2 && ((i >> 1) & 1) < 2 && ((i >> 2) & 1) < 2 && (i
                    & 1) + 2 * ((i >> 1) & 1) + 4 * ((i >> 2) & 1) == i && ((i >> 2) & 1) == i
                    >> 2 && (i & 1) == i % 2 && ((i >> 1) & 1) == (i / 2) % 2 && (i >> 2) == i
                    / 4) by (bit_vector);
            }
            let cx = 2 * xw + dx;
            let cy = 2 * yw + dy;
            let cz = 2 * zw + dz;
            if -0x100000 <= cx && cx < 0x100000 && -0x100000 <= cy && cy < 0x100000 && -0x100000
                <= cz && cz < 0x100000 {
                proof {
                    lemma2_to64();
                }
                let child = ZOrder::<i64>::new_unchecked(cx as i32, cy as i32, cz as i32);
                let ghost q1 = self.processing.items@;
                let ghost it_pre = *self;
                proof {
                    Self::lemma_child_node(*self, n, parent, child, i as int);
                    assert((child.sx(), child.sy(), child.sz()) == ChunkedOctree::<T>::child_ax(
                        hn_ax(n),
                        i as int,
                    ));
                }
                self.push_node(n.level - 1, child);
                proof {
                    let lvl = (n.level - 1) as u8;
                    let ca = ChunkedOctree::<T>::child_ax(hn_ax(n), i as int);
                    if self.processing.items@ != q1 {
                        let w = choose|w: u64|
                            #![trigger call_ensures(it_pre.weight_fn, (lvl, child), Some(w))]
                            {
                                &&& call_ensures(it_pre.weight_fn, (lvl, child), Some(w))
                                &&& call_ensures(
                                    it_pre.filter_fn,
                                    (&it_pre.octree.spec_get(
                                        lvl as int,
                                        (child.sx(), child.sy(), child.sz()),
                                    ),),
                                    true,
                                )
                                &&& self.processing.items@ == q1.push(
                                    HeapNode { weight: w, level: lvl, pos: child.0 },
                                )
                            };
                        let ki = q1.len() as int;
                        assert(self.processing.items@[ki] == HeapNode {
                            weight: w,
                            level: lvl,
                            pos: child.0,
                        });
                        assert(hn_ax(self.processing.items@[ki]) == ca);
                        assert(Self::node_enqueued(*self, lvl, ca));
                        lemma_q_measure_push(q1, self.processing.items@.last());
                        assert(self.processing.items@.last().level == n.level - 1);
                    } else {
                        assert(Self::offer_rejected(
                            *old(self).octree,
                            old(self).weight_fn,
                            old(self).filter_fn,
                            lvl,
                            child,
                        ));
                        assert(Self::node_rejected(*old(self), lvl, ca));
                    }
                    assert(Self::child_covered(*old(self), *self, lvl, ca));
                    // earlier children stay covered as the queue only grew
                    assert forall|ii: int| 0 <= ii < i + 1 implies Self::child_covered(
                        *old(self),
                        *self,
                        lvl,
                        #[trigger] ChunkedOctree::<T>::child_ax(hn_ax(n), ii),
                    ) by {
                        if ii < i {
                            let cc = ChunkedOctree::<T>::child_ax(hn_ax(n), ii);
                            if Self::node_enqueued(it_pre, lvl, cc) {
                                let kk = choose|kk: int|
                                    0 <= kk < it_pre.processing.items@.len() && (
                                    #[trigger] it_pre.processing.items@[kk]).level == lvl && hn_ax(
                                        it_pre.processing.items@[kk],
                                    ) == cc;
                                assert(self.processing.items@[kk]
                                    == it_pre.processing.items@[kk]);
                                assert(Self::node_enqueued(*self, lvl, cc));
                            }
                        }
                    }
                    assert((i + 1) * start_index(n.level as int) == i * start_index(
                        n.level as int,
                    ) + start_index(n.level as int)) by (nonlinear_arith);
                    lemma_start_monotone(0, n.level as int);
                }
            } else {
                proof {
                    let lvl = (n.level - 1) as u8;
                    let ca = ChunkedOctree::<T>::child_ax(hn_ax(n), i as int);
                    assert(ca == (2 * parent.sx() + (i as int) % 2, 2 * parent.sy() + ((
                    i as int) / 2) % 2, 2 * parent.sz() + (i as int) / 4));
                    assert(!ChunkedOctree::<T>::node_in_range(ca));
                    assert(Self::child_covered(*old(self), *self, lvl, ca));
                    lemma_start_monotone(0, n.level as int);
                    assert((i + 1) * start_index(n.level as int) >= i * start_index(
                        n.level as int,
                    )) by (nonlinear_arith)
                        requires
                            start_index(n.level as int) >= 0,
                    ;
                }
            }
            i = i + 1;
        }
    }

    /// A child of a queued node satisfies the queue's preconditions: its
    /// possible weights respect the weight_floor, and its strict ancestors' filter
    /// checks are inherited from its parent's.
    proof fn lemma_child_node(it: Self, n: HeapNode, parent: ZOrder<i64>, child: ZOrder<i64>, i: int)
        requires
            it.wf(),
            it.node_ok(n),
            1 <= n.level <= it.octree.depth,
            parent == ZOrder::<i64>(n.pos),
            parent.wf(),
            child.wf(),
            0 <= i < 8,
            (child.sx(), child.sy(), child.sz()) == ChunkedOctree::<T>::child_ax(
                (parent.sx(), parent.sy(), parent.sz()),
                i,
            ),
            ChunkedOctree::<T>::node_in_range((child.sx(), child.sy(), child.sz())),
        ensures
            forall|w: u64|
                call_ensures(it.weight_fn, ((n.level - 1) as u8, child), Some(w)) ==> w
                    >= it.weight_floor@,
            forall|l: int|
                #![trigger ChunkedOctree::<T>::anc((child.sx(), child.sy(), child.sz()), l - (n.level - 1))]
                n.level - 1 < l <= it.octree.depth ==> call_ensures(
                    it.filter_fn,
                    (&it.octree.spec_get(
                        l,
                        ChunkedOctree::<T>::anc(
                            (child.sx(), child.sy(), child.sz()),
                            l - (n.level - 1),
                        ),
                    ),),
                    true,
                ),
    {
        let pa = (parent.sx(), parent.sy(), parent.sz());
        let ca = (child.sx(), child.sy(), child.sz());
        assert(hn_ax(n) == pa);
        // weights of the child respect the weight_floor through the parent's weight
        assert forall|w: u64|
            call_ensures(it.weight_fn, ((n.level - 1) as u8, child), Some(w)) implies w
            >= it.weight_floor@ by {
            assert(call_ensures(it.weight_fn, (n.level, ZOrder(n.pos)), Some(n.weight)));
        }
        // the child's ancestors are the parent's ancestors
        assert forall|l: int|
            #![trigger ChunkedOctree::<T>::anc(ca, l - (n.level - 1))]
            n.level - 1 < l <= it.octree.depth implies ChunkedOctree::<T>::anc(
            ca,
            l - (n.level - 1),
        ) == ChunkedOctree::<T>::anc(pa, l - n.level) by {
            let k = l - n.level;
            lemma2_to64();
            vstd::arithmetic::power2::lemma_pow2_pos(k as nat);
            lemma_pow2_adds(1, k as nat);
            assert(pow2((k + 1) as nat) <= pow2(21)) by {
                if k + 1 < 21 {
                    vstd::arithmetic::power2::lemma_pow2_strictly_increases((k + 1) as nat, 21);
                }
            }
            vstd::arithmetic::div_mod::lemma_fundamental_div_mod_converse(
                ca.0,
                2,
                pa.0,
                i % 2,
            );
            vstd::arithmetic::div_mod::lemma_fundamental_div_mod_converse(
                ca.1,
                2,
                pa.1,
                (i / 2) % 2,
            );
            vstd::arithmetic::div_mod::lemma_fundamental_div_mod_converse(
                ca.2,
                2,
                pa.2,
                i / 4,
            );
            ChunkedOctree::<T>::lemma_div_div(ca.0, 2, pow2(k as nat) as int);
            ChunkedOctree::<T>::lemma_div_div(ca.1, 2, pow2(k as nat) as int);
            ChunkedOctree::<T>::lemma_div_div(ca.2, 2, pow2(k as nat) as int);
        }
    }
}


} // verus!

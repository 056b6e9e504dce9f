use vstd::prelude::*;

use crate::z_order_store::{
    axis_max, axis_min, lemma_wrap_axis_congruent, lemma_wrap_axis_identity, wrap_axis, ZOrderStore,
};
use vstd::arithmetic::div_mod::{
    lemma_fundamental_div_mod, lemma_hoist_over_denominator, lemma_mod_bound,
    lemma_mod_multiples_vanish, lemma_small_mod,
};
use vstd::arithmetic::power2::{lemma2_to64, lemma_pow2_adds, lemma_pow2_strictly_increases, pow2};

verus! {

/// A 3D coordinate packed into a single primitive integer by interleaving the
/// bits of its three axes along the z-order (Morton) curve. The store type
/// decides the width and the signedness of the axes.
#[derive(Clone, Copy, PartialEq, Eq, Debug)]
pub struct ZOrder<T: ZOrderStore = i64>(pub T);

proof fn lemma_pow2_le(a: nat, b: nat)
    requires
        a <= b,
    ensures
        pow2(a) <= pow2(b),
{
    if a < b {
        lemma_pow2_strictly_increases(a, b);
    }
}

/// Computes a power of two.
pub(crate) fn pow2_u64(k: u64) -> (r: u64)
    requires
        pow2(k as nat) <= u64::MAX,
    ensures
        r == pow2(k as nat),
{
    let mut r: u64 = 1;
    let mut i: u64 = 0;
    proof {
        lemma2_to64();
    }
    while i < k
        invariant
            i <= k,
            r == pow2(i as nat),
            pow2(k as nat) <= u64::MAX,
        decreases k - i,
    {
        proof {
            lemma_pow2_adds(i as nat, 1);
            lemma2_to64();
            lemma_pow2_le(i as nat + 1, k as nat);
        }
        r = r * 2;
        i = i + 1;
    }
    r
}

/// The euclidean remainder of `v` modulo `m`, as the unsigned representative
/// of `v`'s residue class.
fn wrap_rep(v: i64, m: u64) -> (r: u64)
    requires
        1 <= m <= 0x20_0000,
        -((m as int) * 0x20_0000) <= v <= (m as int) * 0x20_0000,
    ensures
        r < m,
        r as int == (v as int) % (m as int),
{
    let shifted = v + (m as i64) * 0x40_0000;
    proof {
        lemma_mod_multiples_vanish(0x40_0000, v as int, m as int);
        lemma_mod_bound(v as int, m as int);
    }
    (shifted as u64) % m
}

impl<T: ZOrderStore> ZOrder<T> {
    /// Only the usable low bits of the packed integer are set.
    pub open spec fn wf(self) -> bool {
        T::raw_wf(self.0)
    }

    /// The decoded x axis.
    pub open spec fn sx(self) -> int {
        T::axis(self.0, 0)
    }

    /// The decoded y axis.
    pub open spec fn sy(self) -> int {
        T::axis(self.0, 1)
    }

    /// The decoded z axis.
    pub open spec fn sz(self) -> int {
        T::axis(self.0, 2)
    }

    /// Whether a value is a valid axis for this store.
    pub open spec fn axis_ok(v: int) -> bool {
        axis_min(T::spec_bpe(), T::spec_signed()) <= v <= axis_max(
            T::spec_bpe(),
            T::spec_signed(),
        )
    }

    /// Packs three coordinates; axes outside the store's range are rejected.
    pub fn new(x: T::Elem, y: T::Elem, z: T::Elem) -> (r: Option<ZOrder<T>>)
        ensures
            r is Some <==> Self::axis_ok(T::elem_int(x)) && Self::axis_ok(T::elem_int(y))
                && Self::axis_ok(T::elem_int(z)),
            r is Some ==> {
                &&& r->Some_0.wf()
                &&& r->Some_0.sx() == T::elem_int(x)
                &&& r->Some_0.sy() == T::elem_int(y)
                &&& r->Some_0.sz() == T::elem_int(z)
            },
    {
        let mn = T::element_min();
        let mx = T::element_max();
        if T::elem_le(mn, x) && T::elem_le(mn, y) && T::elem_le(mn, z) && T::elem_le(x, mx)
            && T::elem_le(y, mx) && T::elem_le(z, mx) {
            Some(Self::new_unchecked(x, y, z))
        } else {
            None
        }
    }

    /// Packs three coordinates the caller has already checked to be in range.
    pub fn new_unchecked(x: T::Elem, y: T::Elem, z: T::Elem) -> (r: ZOrder<T>)
        requires
            Self::axis_ok(T::elem_int(x)),
            Self::axis_ok(T::elem_int(y)),
            Self::axis_ok(T::elem_int(z)),
        ensures
            r.wf(),
            r.sx() == T::elem_int(x),
            r.sy() == T::elem_int(y),
            r.sz() == T::elem_int(z),
    {
        ZOrder(T::encode(x, y, z))
    }

    /// Wraps a raw integer, clearing any bits above the usable range while
    /// keeping the usable bits, and so all three decoded axes, verbatim; on
    /// an already-usable raw it is the identity.
    pub fn from_raw(order: T) -> (r: ZOrder<T>)
        ensures
            r.wf(),
            T::raw_wf(order) ==> r.0 == order,
            r.sx() == T::axis(order, 0),
            r.sy() == T::axis(order, 1),
            r.sz() == T::axis(order, 2),
    {
        ZOrder(T::mask_usable(order))
    }

    /// The packed primitive integer.
    pub fn raw(self) -> (r: T)
        ensures
            r == self.0,
    {
        self.0
    }

    /// Decodes the axis with the given index (0 = x, 1 = y, 2 = z).
    pub fn decode(self, i: usize) -> (e: T::Elem)
        requires
            self.wf(),
            i < 3,
        ensures
            T::elem_int(e) == T::axis(self.0, i as int),
    {
        T::decode_axis(self.0, i)
    }

    pub fn x(self) -> (e: T::Elem)
        requires
            self.wf(),
        ensures
            T::elem_int(e) == self.sx(),
    {
        self.decode(0)
    }

    pub fn y(self) -> (e: T::Elem)
        requires
            self.wf(),
        ensures
            T::elem_int(e) == self.sy(),
    {
        self.decode(1)
    }

    pub fn z(self) -> (e: T::Elem)
        requires
            self.wf(),
        ensures
            T::elem_int(e) == self.sz(),
    {
        self.decode(2)
    }

    /// Unpacks into the coordinate triple.
    pub fn into(self) -> (r: (T::Elem, T::Elem, T::Elem))
        requires
            self.wf(),
        ensures
            T::elem_int(r.0) == self.sx(),
            T::elem_int(r.1) == self.sy(),
            T::elem_int(r.2) == self.sz(),
    {
        (self.x(), self.y(), self.z())
    }

    /// Axis-wise wrapping addition; exact whenever no axis sum leaves the
    /// store's range.
    pub fn add(self, rhs: ZOrder<T>) -> (r: ZOrder<T>)
        requires
            self.wf(),
            rhs.wf(),
        ensures
            r.wf(),
            r.sx() == wrap_axis(self.sx() + rhs.sx(), T::spec_bpe(), T::spec_signed()),
            r.sy() == wrap_axis(self.sy() + rhs.sy(), T::spec_bpe(), T::spec_signed()),
            r.sz() == wrap_axis(self.sz() + rhs.sz(), T::spec_bpe(), T::spec_signed()),
            Self::axis_ok(self.sx() + rhs.sx()) ==> r.sx() == self.sx() + rhs.sx(),
            Self::axis_ok(self.sy() + rhs.sy()) ==> r.sy() == self.sy() + rhs.sy(),
            Self::axis_ok(self.sz() + rhs.sz()) ==> r.sz() == self.sz() + rhs.sz(),
    {
        let r = ZOrder(T::add_op(self.0, rhs.0));
        proof {
            T::lemma_store_props();
            if Self::axis_ok(self.sx() + rhs.sx()) {
                lemma_wrap_axis_identity(self.sx() + rhs.sx(), T::spec_bpe(), T::spec_signed());
            }
            if Self::axis_ok(self.sy() + rhs.sy()) {
                lemma_wrap_axis_identity(self.sy() + rhs.sy(), T::spec_bpe(), T::spec_signed());
            }
            if Self::axis_ok(self.sz() + rhs.sz()) {
                lemma_wrap_axis_identity(self.sz() + rhs.sz(), T::spec_bpe(), T::spec_signed());
            }
        }
        r
    }

    /// Axis-wise wrapping subtraction; exact whenever no axis difference
    /// leaves the store's range.
    pub fn sub(self, rhs: ZOrder<T>) -> (r: ZOrder<T>)
        requires
            self.wf(),
            rhs.wf(),
        ensures
            r.wf(),
            r.sx() == wrap_axis(self.sx() - rhs.sx(), T::spec_bpe(), T::spec_signed()),
            r.sy() == wrap_axis(self.sy() - rhs.sy(), T::spec_bpe(), T::spec_signed()),
            r.sz() == wrap_axis(self.sz() - rhs.sz(), T::spec_bpe(), T::spec_signed()),
            Self::axis_ok(self.sx() - rhs.sx()) ==> r.sx() == self.sx() - rhs.sx(),
            Self::axis_ok(self.sy() - rhs.sy()) ==> r.sy() == self.sy() - rhs.sy(),
            Self::axis_ok(self.sz() - rhs.sz()) ==> r.sz() == self.sz() - rhs.sz(),
    {
        let r = ZOrder(T::sub_op(self.0, rhs.0));
        proof {
            T::lemma_store_props();
            if Self::axis_ok(self.sx() - rhs.sx()) {
                lemma_wrap_axis_identity(self.sx() - rhs.sx(), T::spec_bpe(), T::spec_signed());
            }
            if Self::axis_ok(self.sy() - rhs.sy()) {
                lemma_wrap_axis_identity(self.sy() - rhs.sy(), T::spec_bpe(), T::spec_signed());
            }
            if Self::axis_ok(self.sz() - rhs.sz()) {
                lemma_wrap_axis_identity(self.sz() - rhs.sz(), T::spec_bpe(), T::spec_signed());
            }
        }
        r
    }

    /// The z-order value one step towards `+X`, wrapping at the range's edge.
    pub fn inc_x(self) -> (r: ZOrder<T>)
        requires
            self.wf(),
        ensures
            r.wf(),
            r.sx() == wrap_axis(self.sx() + 1, T::spec_bpe(), T::spec_signed()),
            r.sy() == self.sy(),
            r.sz() == self.sz(),
    {
        proof {
            T::lemma_axis_range(self.0, 0);
            T::lemma_axis_range(self.0, 1);
            T::lemma_axis_range(self.0, 2);
        }
        self.add(Self::unit(0))
    }

    pub fn inc_y(self) -> (r: ZOrder<T>)
        requires
            self.wf(),
        ensures
            r.wf(),
            r.sx() == self.sx(),
            r.sy() == wrap_axis(self.sy() + 1, T::spec_bpe(), T::spec_signed()),
            r.sz() == self.sz(),
    {
        proof {
            T::lemma_axis_range(self.0, 0);
            T::lemma_axis_range(self.0, 1);
            T::lemma_axis_range(self.0, 2);
        }
        self.add(Self::unit(1))
    }

    pub fn inc_z(self) -> (r: ZOrder<T>)
        requires
            self.wf(),
        ensures
            r.wf(),
            r.sx() == self.sx(),
            r.sy() == self.sy(),
            r.sz() == wrap_axis(self.sz() + 1, T::spec_bpe(), T::spec_signed()),
    {
        proof {
            T::lemma_axis_range(self.0, 0);
            T::lemma_axis_range(self.0, 1);
            T::lemma_axis_range(self.0, 2);
        }
        self.add(Self::unit(2))
    }

    pub fn dec_x(self) -> (r: ZOrder<T>)
        requires
            self.wf(),
        ensures
            r.wf(),
            r.sx() == wrap_axis(self.sx() - 1, T::spec_bpe(), T::spec_signed()),
            r.sy() == self.sy(),
            r.sz() == self.sz(),
    {
        proof {
            T::lemma_axis_range(self.0, 0);
            T::lemma_axis_range(self.0, 1);
            T::lemma_axis_range(self.0, 2);
        }
        self.sub(Self::unit(0))
    }

    pub fn dec_y(self) -> (r: ZOrder<T>)
        requires
            self.wf(),
        ensures
            r.wf(),
            r.sx() == self.sx(),
            r.sy() == wrap_axis(self.sy() - 1, T::spec_bpe(), T::spec_signed()),
            r.sz() == self.sz(),
    {
        proof {
            T::lemma_axis_range(self.0, 0);
            T::lemma_axis_range(self.0, 1);
            T::lemma_axis_range(self.0, 2);
        }
        self.sub(Self::unit(1))
    }

    pub fn dec_z(self) -> (r: ZOrder<T>)
        requires
            self.wf(),
        ensures
            r.wf(),
            r.sx() == self.sx(),
            r.sy() == self.sy(),
            r.sz() == wrap_axis(self.sz() - 1, T::spec_bpe(), T::spec_signed()),
    {
        proof {
            T::lemma_axis_range(self.0, 0);
            T::lemma_axis_range(self.0, 1);
            T::lemma_axis_range(self.0, 2);
        }
        self.sub(Self::unit(2))
    }

    /// The unit step along one axis.
    fn unit(i: usize) -> (r: ZOrder<T>)
        requires
            i < 3,
        ensures
            r.wf(),
            r.sx() == if i == 0 {
                1int
            } else {
                0int
            },
            r.sy() == if i == 1 {
                1int
            } else {
                0int
            },
            r.sz() == if i == 2 {
                1int
            } else {
                0int
            },
    {
        proof {
            T::lemma_store_props();
            lemma2_to64();
            lemma_pow2_le(2, T::spec_bpe() as nat);
            lemma_small_mod(0, pow2(T::spec_bpe() as nat));
            lemma_small_mod(1, pow2(T::spec_bpe() as nat));
            lemma_pow2_adds((T::spec_bpe() - 1) as nat, 1);
            lemma_pow2_le(1, (T::spec_bpe() - 1) as nat);
        }
        let r = if i == 0 {
            ZOrder(T::encode_axes(1, 0, 0))
        } else if i == 1 {
            ZOrder(T::encode_axes(0, 1, 0))
        } else {
            ZOrder(T::encode_axes(0, 0, 1))
        };
        r
    }

    /// Shifts every axis left by `k` bits: multiplies each coordinate by
    /// `2^k`, wrapping at the range's edge; exact whenever no axis leaves the
    /// store's range.
    pub fn shl(self, k: usize) -> (r: ZOrder<T>)
        requires
            self.wf(),
            (k as int) < T::spec_bpe(),
        ensures
            r.wf(),
            r.sx() == wrap_axis(self.sx() * pow2(k as nat), T::spec_bpe(), T::spec_signed()),
            r.sy() == wrap_axis(self.sy() * pow2(k as nat), T::spec_bpe(), T::spec_signed()),
            r.sz() == wrap_axis(self.sz() * pow2(k as nat), T::spec_bpe(), T::spec_signed()),
            Self::axis_ok(self.sx() * pow2(k as nat)) ==> r.sx() == self.sx() * pow2(k as nat),
            Self::axis_ok(self.sy() * pow2(k as nat)) ==> r.sy() == self.sy() * pow2(k as nat),
            Self::axis_ok(self.sz() * pow2(k as nat)) ==> r.sz() == self.sz() * pow2(k as nat),
    {
        proof {
            T::lemma_store_props();
            T::lemma_axis_range(self.0, 0);
            T::lemma_axis_range(self.0, 1);
            T::lemma_axis_range(self.0, 2);
            lemma2_to64();
            lemma_pow2_le(T::spec_bpe() as nat, 21);
            lemma_pow2_le(k as nat, 20);
            lemma_pow2_le((T::spec_bpe() - 1) as nat, 20);
        }
        let bpe = T::bits_per_element();
        let m = pow2_u64(bpe as u64);
        let p = pow2_u64(k as u64);
        let xi = T::axis_wide(self.0, 0);
        let yi = T::axis_wide(self.0, 1);
        let zi = T::axis_wide(self.0, 2);
        proof {
            Self::lemma_axis_product_bounded(xi as int, p as int, m as int);
            Self::lemma_axis_product_bounded(yi as int, p as int, m as int);
            Self::lemma_axis_product_bounded(zi as int, p as int, m as int);
        }
        let rx = wrap_rep(xi * (p as i64), m);
        let ry = wrap_rep(yi * (p as i64), m);
        let rz = wrap_rep(zi * (p as i64), m);
        let r = ZOrder(T::encode_axes(rx, ry, rz));
        proof {
            let b = T::spec_bpe();
            let s = T::spec_signed();
            lemma_small_mod(rx as nat, m as nat);
            lemma_small_mod(ry as nat, m as nat);
            lemma_small_mod(rz as nat, m as nat);
            lemma_wrap_axis_congruent(rx as int, xi * p, b, s);
            lemma_wrap_axis_congruent(ry as int, yi * p, b, s);
            lemma_wrap_axis_congruent(rz as int, zi * p, b, s);
            if Self::axis_ok(self.sx() * pow2(k as nat)) {
                lemma_wrap_axis_identity(self.sx() * pow2(k as nat), b, s);
            }
            if Self::axis_ok(self.sy() * pow2(k as nat)) {
                lemma_wrap_axis_identity(self.sy() * pow2(k as nat), b, s);
            }
            if Self::axis_ok(self.sz() * pow2(k as nat)) {
                lemma_wrap_axis_identity(self.sz() * pow2(k as nat), b, s);
            }
        }
        r
    }

    /// An axis times a power of two below the modulus stays within the bounds
    /// accepted by the representative computation.
    proof fn lemma_axis_product_bounded(v: int, p: int, m: int)
        requires
            1 <= m,
            1 <= p <= 0x10_0000,
            -m <= v < m,
            m <= 0x20_0000,
        ensures
            -(m * 0x20_0000) <= v * p <= m * 0x20_0000,
            -0x7FFF_FFFF_FFFF_FFFF <= v * p <= 0x7FFF_FFFF_FFFF_FFFF,
    {
        assert(-(m * 0x20_0000) <= v * p <= m * 0x20_0000) by (nonlinear_arith)
            requires
                1 <= m,
                1 <= p <= 0x10_0000,
                -m <= v < m,
        ;
        assert(m * 0x20_0000 <= 0x20_0000 * 0x20_0000) by (nonlinear_arith)
            requires
                m <= 0x20_0000,
        ;
    }

    /// Shifts every axis right by `k` bits: divides each coordinate by `2^k`,
    /// rounding towards negative infinity (an arithmetic shift).
    pub fn shr(self, k: usize) -> (r: ZOrder<T>)
        requires
            self.wf(),
            (k as int) < T::spec_bpe(),
        ensures
            r.wf(),
            r.sx() == self.sx() / (pow2(k as nat) as int),
            r.sy() == self.sy() / (pow2(k as nat) as int),
            r.sz() == self.sz() / (pow2(k as nat) as int),
    {
        proof {
            T::lemma_store_props();
            T::lemma_axis_range(self.0, 0);
            T::lemma_axis_range(self.0, 1);
            T::lemma_axis_range(self.0, 2);
            lemma2_to64();
            lemma_pow2_le(T::spec_bpe() as nat, 21);
            lemma_pow2_le(k as nat, 20);
            lemma_pow2_le((T::spec_bpe() - 1) as nat, 20);
        }
        let bpe = T::bits_per_element();
        let m = pow2_u64(bpe as u64);
        let p = pow2_u64(k as u64);
        let qx = Self::floor_div_axis(T::axis_wide(self.0, 0), p, m);
        let qy = Self::floor_div_axis(T::axis_wide(self.0, 1), p, m);
        let qz = Self::floor_div_axis(T::axis_wide(self.0, 2), p, m);
        proof {
            let b = T::spec_bpe();
            let s = T::spec_signed();
            Self::lemma_floor_div_in_range(self.sx(), p as int, b, s);
            Self::lemma_floor_div_in_range(self.sy(), p as int, b, s);
            Self::lemma_floor_div_in_range(self.sz(), p as int, b, s);
        }
        let rx = wrap_rep(qx, m);
        let ry = wrap_rep(qy, m);
        let rz = wrap_rep(qz, m);
        let r = ZOrder(T::encode_axes(rx, ry, rz));
        proof {
            let b = T::spec_bpe();
            let s = T::spec_signed();
            lemma_small_mod(rx as nat, m as nat);
            lemma_small_mod(ry as nat, m as nat);
            lemma_small_mod(rz as nat, m as nat);
            lemma_wrap_axis_congruent(rx as int, qx as int, b, s);
            lemma_wrap_axis_congruent(ry as int, qy as int, b, s);
            lemma_wrap_axis_congruent(rz as int, qz as int, b, s);
            lemma_wrap_axis_identity(qx as int, b, s);
            lemma_wrap_axis_identity(qy as int, b, s);
            lemma_wrap_axis_identity(qz as int, b, s);
        }
        r
    }

    /// Computes `v / p` rounded towards negative infinity.
    fn floor_div_axis(v: i64, p: u64, m: u64) -> (q: i64)
        requires
            1 <= p <= 0x10_0000,
            1 <= m <= 0x20_0000,
            -(m as int) <= v < m as int,
        ensures
            q as int == (v as int) / (p as int),
    {
        proof {
            lemma_hoist_over_denominator(v as int, m as int, p as nat);
            assert((m as int) * (p as int) <= 0x20_0000 * 0x10_0000) by (nonlinear_arith)
                requires
                    1 <= m <= 0x20_0000,
                    1 <= p <= 0x10_0000,
            ;
            assert(0 <= v + (m as int) * (p as int)) by (nonlinear_arith)
                requires
                    -(m as int) <= v,
                    1 <= m,
                    1 <= p,
            ;
        }
        let nn = (v + (m as i64) * (p as i64)) as u64;
        let qq = nn / p;
        proof {
            assert((v as int) / (p as int) + (m as int) == (v as int + (m as int) * (p as int))
                / (p as int));
            vstd::arithmetic::div_mod::lemma_div_nonincreasing(nn as int, p as int);
            vstd::arithmetic::div_mod::lemma_div_pos_is_pos(nn as int, p as int);
        }
        (qq as i64) - (m as i64)
    }

    /// Dividing an in-range axis by a positive power of two keeps it in range.
    proof fn lemma_floor_div_in_range(v: int, p: int, bpe: int, signed: bool)
        requires
            1 <= p,
            1 <= bpe,
            axis_min(bpe, signed) <= v <= axis_max(bpe, signed),
        ensures
            axis_min(bpe, signed) <= v / p <= axis_max(bpe, signed),
    {
        let mn = axis_min(bpe, signed);
        let mx = axis_max(bpe, signed);
        lemma_fundamental_div_mod(v, p);
        lemma_mod_bound(v, p);
        let q = v / p;
        let rr = v % p;
        assert(v == p * q + rr);
        if q > mx {
            assert(p * q >= q) by (nonlinear_arith)
                requires
                    p >= 1,
                    q >= 0,
            ;
            assert(false);
        }
        if q < mn {
            assert(p * q + rr < mn) by (nonlinear_arith)
                requires
                    p >= 1,
                    q < mn,
                    mn <= 0,
                    0 <= rr < p,
                    q <= -1,
            ;
            assert(false);
        }
    }
}

} // verus!

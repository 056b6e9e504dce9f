use vstd::prelude::*;

use vstd::arithmetic::div_mod::{lemma_mod_add_multiples_vanish, lemma_mod_bound, lemma_small_mod};
use vstd::arithmetic::power2::{lemma2_to64, pow2};

verus! {

/// The value an axis takes after being reduced to `bpe` bits: its euclidean
/// remainder modulo `2^bpe`, reinterpreted as two's complement when signed.
pub open spec fn wrap_axis(v: int, bpe: int, signed: bool) -> int {
    let m = v % (pow2(bpe as nat) as int);
    if signed && m >= pow2((bpe - 1) as nat) {
        m - pow2(bpe as nat)
    } else {
        m
    }
}

/// The smallest value an axis can hold.
pub open spec fn axis_min(bpe: int, signed: bool) -> int {
    if signed {
        -(pow2((bpe - 1) as nat) as int)
    } else {
        0
    }
}

/// The largest value an axis can hold.
pub open spec fn axis_max(bpe: int, signed: bool) -> int {
    if signed {
        pow2((bpe - 1) as nat) - 1
    } else {
        pow2(bpe as nat) - 1
    }
}

/// Wrapping an in-range axis value changes nothing.
pub proof fn lemma_wrap_axis_identity(v: int, bpe: int, signed: bool)
    requires
        1 <= bpe,
        axis_min(bpe, signed) <= v <= axis_max(bpe, signed),
    ensures
        wrap_axis(v, bpe, signed) == v,
{
    let p = pow2(bpe as nat) as int;
    let h = pow2((bpe - 1) as nat) as int;
    vstd::arithmetic::power2::lemma_pow2_adds((bpe - 1) as nat, 1);
    lemma2_to64();
    assert(p == 2 * h);
    if signed {
        if v >= 0 {
            lemma_small_mod(v as nat, p as nat);
        } else {
            lemma_mod_add_multiples_vanish(v, p);
            lemma_small_mod((v + p) as nat, p as nat);
            assert(v % p == v + p);
        }
    } else {
        lemma_small_mod(v as nat, p as nat);
    }
}

/// A wrapped axis value always lands inside the axis range.
pub proof fn lemma_wrap_axis_in_range(v: int, bpe: int, signed: bool)
    requires
        1 <= bpe,
    ensures
        axis_min(bpe, signed) <= wrap_axis(v, bpe, signed) <= axis_max(bpe, signed),
{
    let p = pow2(bpe as nat) as int;
    let h = pow2((bpe - 1) as nat) as int;
    vstd::arithmetic::power2::lemma_pow2_adds((bpe - 1) as nat, 1);
    lemma2_to64();
    vstd::arithmetic::power2::lemma_pow2_pos((bpe - 1) as nat);
    assert(p == 2 * h);
    lemma_mod_bound(v, p);
}

/// Values congruent modulo `2^bpe` wrap to the same axis value.
pub proof fn lemma_wrap_axis_congruent(a: int, b: int, bpe: int, signed: bool)
    requires
        1 <= bpe,
        a % (pow2(bpe as nat) as int) == b % (pow2(bpe as nat) as int),
    ensures
        wrap_axis(a, bpe, signed) == wrap_axis(b, bpe, signed),
{
}

/// A store of three interleaved axes: one unsigned or signed primitive integer
/// whose bits `3 k`, `3 k + 1` and `3 k + 2` hold bit `k` of the x, y and z
/// axis. Each axis has `spec_bpe()` bits; all higher bits stay clear.
pub trait ZOrderStore: Sized + Copy {
    /// The element type in which single decoded axes are handed out.
    type Elem: Sized + Copy;

    /// Bits available per axis.
    spec fn spec_bpe() -> int;

    /// Whether axes are interpreted as two's-complement signed values.
    spec fn spec_signed() -> bool;

    /// The mathematical value of an element.
    spec fn elem_int(e: Self::Elem) -> int;

    /// Whether only the usable `3 * spec_bpe()` low bits are set.
    spec fn raw_wf(r: Self) -> bool;

    /// The decoded axis value (0 = x, 1 = y, 2 = z), sign-interpreted.
    spec fn axis(r: Self, i: int) -> int;

    /// The store's parameters are sane.
    proof fn lemma_store_props()
        ensures
            2 <= Self::spec_bpe() <= 21,
    ;

    /// Decoded axes lie in the element range.
    proof fn lemma_axis_range(r: Self, i: int)
        requires
            Self::raw_wf(r),
            0 <= i < 3,
        ensures
            axis_min(Self::spec_bpe(), Self::spec_signed()) <= Self::axis(r, i) <= axis_max(
                Self::spec_bpe(),
                Self::spec_signed(),
            ),
    ;

    /// The three decoded axes determine the raw value.
    proof fn lemma_encode_injective(a: Self, b: Self)
        requires
            Self::raw_wf(a),
            Self::raw_wf(b),
            Self::axis(a, 0) == Self::axis(b, 0),
            Self::axis(a, 1) == Self::axis(b, 1),
            Self::axis(a, 2) == Self::axis(b, 2),
        ensures
            a == b,
    ;

    fn bits_per_element() -> (k: usize)
        ensures
            k as int == Self::spec_bpe(),
    ;

    fn is_signed() -> (s: bool)
        ensures
            s == Self::spec_signed(),
    ;

    fn element_min() -> (e: Self::Elem)
        ensures
            Self::elem_int(e) == axis_min(Self::spec_bpe(), Self::spec_signed()),
    ;

    fn element_max() -> (e: Self::Elem)
        ensures
            Self::elem_int(e) == axis_max(Self::spec_bpe(), Self::spec_signed()),
    ;

    fn elem_le(a: Self::Elem, b: Self::Elem) -> (r: bool)
        ensures
            r == (Self::elem_int(a) <= Self::elem_int(b)),
    ;

    /// Interleaves three axes given as their `bpe`-bit unsigned representatives.
    fn encode_axes(x: u64, y: u64, z: u64) -> (r: Self)
        requires
            (x as int) < pow2(Self::spec_bpe() as nat),
            (y as int) < pow2(Self::spec_bpe() as nat),
            (z as int) < pow2(Self::spec_bpe() as nat),
        ensures
            Self::raw_wf(r),
            Self::axis(r, 0) == wrap_axis(x as int, Self::spec_bpe(), Self::spec_signed()),
            Self::axis(r, 1) == wrap_axis(y as int, Self::spec_bpe(), Self::spec_signed()),
            Self::axis(r, 2) == wrap_axis(z as int, Self::spec_bpe(), Self::spec_signed()),
    ;

    /// Interleaves three in-range elements.
    fn encode(x: Self::Elem, y: Self::Elem, z: Self::Elem) -> (r: Self)
        requires
            axis_min(Self::spec_bpe(), Self::spec_signed()) <= Self::elem_int(x) <= axis_max(
                Self::spec_bpe(),
                Self::spec_signed(),
            ),
            axis_min(Self::spec_bpe(), Self::spec_signed()) <= Self::elem_int(y) <= axis_max(
                Self::spec_bpe(),
                Self::spec_signed(),
            ),
            axis_min(Self::spec_bpe(), Self::spec_signed()) <= Self::elem_int(z) <= axis_max(
                Self::spec_bpe(),
                Self::spec_signed(),
            ),
        ensures
            Self::raw_wf(r),
            Self::axis(r, 0) == Self::elem_int(x),
            Self::axis(r, 1) == Self::elem_int(y),
            Self::axis(r, 2) == Self::elem_int(z),
    ;

    /// Extracts one axis as an element.
    fn decode_axis(r: Self, i: usize) -> (e: Self::Elem)
        requires
            Self::raw_wf(r),
            i < 3,
        ensures
            Self::elem_int(e) == Self::axis(r, i as int),
    ;

    /// Extracts one axis as a plain wide integer.
    fn axis_wide(r: Self, i: usize) -> (v: i64)
        requires
            Self::raw_wf(r),
            i < 3,
        ensures
            v as int == Self::axis(r, i as int),
    ;

    /// Clears every bit above the usable range; the usable bits, and with
    /// them all three decoded axes, are kept verbatim.
    fn mask_usable(r: Self) -> (m: Self)
        ensures
            Self::raw_wf(m),
            Self::raw_wf(r) ==> m == r,
            Self::axis(m, 0) == Self::axis(r, 0),
            Self::axis(m, 1) == Self::axis(r, 1),
            Self::axis(m, 2) == Self::axis(r, 2),
    ;

    /// Axis-wise wrapping addition: three parallel additions in which the two
    /// other axes are filled with ones so carries never cross axes.
    fn add_op(a: Self, b: Self) -> (r: Self)
        requires
            Self::raw_wf(a),
            Self::raw_wf(b),
        ensures
            Self::raw_wf(r),
            forall|i: int|
                0 <= i < 3 ==> Self::axis(r, i) == wrap_axis(
                    Self::axis(a, i) + Self::axis(b, i),
                    Self::spec_bpe(),
                    Self::spec_signed(),
                ),
    ;

    /// Axis-wise wrapping subtraction.
    fn sub_op(a: Self, b: Self) -> (r: Self)
        requires
            Self::raw_wf(a),
            Self::raw_wf(b),
        ensures
            Self::raw_wf(r),
            forall|i: int|
                0 <= i < 3 ==> Self::axis(r, i) == wrap_axis(
                    Self::axis(a, i) - Self::axis(b, i),
                    Self::spec_bpe(),
                    Self::spec_signed(),
                ),
    ;
}


pub open spec fn split_u8(x: u8) -> u8 {
    (x | (x << 2)) & 0x09
}

pub open spec fn gather_u8(z: u8) -> u8 {
    let a = z & 0x09;
    (a ^ (a >> 2)) & 0x03
}

pub open spec fn enc_u8(x: u8, y: u8, z: u8) -> u8 {
    split_u8(x) | (split_u8(y) << 1) | (split_u8(z) << 2)
}

pub open spec fn axis_u8(r: u8, i: int) -> u8 {
    if i == 0 {
        gather_u8(r)
    } else if i == 1 {
        gather_u8(r >> 1)
    } else {
        gather_u8(r >> 2)
    }
}

/// The interleave and deinterleave cascades for u8 stores invert each other
/// on in-range axes, interleaving keeps the bits above the usable range
/// clear, and deinterleaving the three axes recovers a usable value exactly.
#[verifier::spinoff_prover]
pub proof fn z_facts_u8()
    by (bit_vector)
    ensures
        forall|x: u8, y: u8, z: u8| #[trigger] enc_u8(x, y, z) < 0x40,
        forall|x: u8, y: u8, z: u8|
            x < 4 && y < 4 && z < 4 ==> gather_u8(#[trigger] enc_u8(x, y, z)) == x
                && gather_u8(enc_u8(x, y, z) >> 1) == y && gather_u8(enc_u8(x, y, z) >> 2)
                == z,
        forall|r: u8| #[trigger] gather_u8(r) < 4,
        forall|r: u8|
            r < 0x40 ==> #[trigger] enc_u8(
                gather_u8(r),
                gather_u8(r >> 1),
                gather_u8(r >> 2),
            ) == r,
        forall|r: u8|
            #[trigger] (r & 0x3F) < 0x40 && (r < 0x40 ==> r & 0x3F == r)
                && gather_u8(r & 0x3F) == gather_u8(r) && gather_u8((r & 0x3F) >> 1)
                == gather_u8(r >> 1) && gather_u8((r & 0x3F) >> 2) == gather_u8(r >> 2),
{
}

/// Axis-wise wrapping addition for u8 stores: filling the two other axes
/// with ones lets carries pass over them without reaching the next axis bit.
#[verifier::spinoff_prover]
pub proof fn z_add_facts_u8()
    by (bit_vector)
    ensures
        forall|a: u8, b: u8|
            a < 0x40 && b < 0x40 ==> #[trigger] ((a | 0x36u8) + (b & 0x09)) < 0x100 && (a
                | 0x2D) + (b & 0x12) < 0x100 && (a | 0x1B) + (b & 0x24) < 0x100,
        forall|a: u8, b: u8|
            #![trigger a | 0x36u8, b & 0x09u8]
            a < 0x40 && b < 0x40 ==> ({
                let xs = ((a | 0x36u8) + (b & 0x09u8)) as u8;
                let ys = ((a | 0x2Du8) + (b & 0x12u8)) as u8;
                let zs = ((a | 0x1Bu8) + (b & 0x24u8)) as u8;
                let r = (xs & 0x09) | (ys & 0x12) | (zs & 0x24);
                &&& r < 0x40
                &&& axis_u8(r, 0) == ((axis_u8(a, 0) + axis_u8(b, 0)) as int) % 4
                &&& axis_u8(r, 1) == ((axis_u8(a, 1) + axis_u8(b, 1)) as int) % 4
                &&& axis_u8(r, 2) == ((axis_u8(a, 2) + axis_u8(b, 2)) as int) % 4
            }),
{
}

/// Axis-wise wrapping subtraction for u8 stores: with the two other axes
/// cleared, borrows travel over them to the next axis bit, and a guard bit
/// above the usable range absorbs the final borrow.
#[verifier::spinoff_prover]
pub proof fn z_sub_facts_u8()
    by (bit_vector)
    ensures
        forall|a: u8, b: u8|
            #![trigger (a & 0x09u8) | 0x40, b & 0x09u8]
            a < 0x40 && b < 0x40 ==> ((a & 0x09u8) | 0x40) >= (b & 0x09) && ((a
                & 0x12) | 0x40) >= (b & 0x12) && ((a & 0x24) | 0x40) >= (b & 0x24),
        forall|a: u8, b: u8|
            #![trigger (a & 0x09u8) | 0x40u8, b & 0x09u8]
            a < 0x40 && b < 0x40 ==> ({
                let xs = ((((a & 0x09u8) | 0x40u8) - (b & 0x09u8)) as int) as u8;
                let ys = ((((a & 0x12u8) | 0x40u8) - (b & 0x12u8)) as int) as u8;
                let zs = ((((a & 0x24u8) | 0x40u8) - (b & 0x24u8)) as int) as u8;
                let r = (xs & 0x09) | (ys & 0x12) | (zs & 0x24);
                &&& r < 0x40
                &&& axis_u8(r, 0) == ((axis_u8(a, 0) + 4 - axis_u8(b, 0)) as int) % 4
                &&& axis_u8(r, 1) == ((axis_u8(a, 1) + 4 - axis_u8(b, 1)) as int) % 4
                &&& axis_u8(r, 2) == ((axis_u8(a, 2) + 4 - axis_u8(b, 2)) as int) % 4
            }),
{
}

/// Casts between the signed and unsigned u8 stores preserve usable values.
#[verifier::spinoff_prover]
pub proof fn z_cast_facts_u8()
    by (bit_vector)
    ensures
        forall|r: i8|
            0 <= r && (r as int) < 0x40 ==> (#[trigger] (r as u8)) < 0x40 && (r as u8) as int
                == r as int,
        forall|ru: u8|
            ru < 0x40 ==> (#[trigger] (ru as i8)) >= 0 && ((ru as i8) as int) < 0x40 && (
            ru as i8) as u8 == ru,
        forall|r: i8|
            #[trigger] (r & 0x3F) >= 0 && ((r & 0x3F) as int) < 0x40 && (0 <= r
                && (r as int) < 0x40 ==> r & 0x3F == r) && ((r & 0x3F) as u8) == (
            r as u8) & 0x3F,
{
}

fn split_exec_u8(x: u8) -> (r: u8)
    ensures
        r == split_u8(x),
{
    (x | (x << 2)) & 0x09
}

fn gather_exec_u8(z: u8) -> (r: u8)
    ensures
        r == gather_u8(z),
{
    let a = z & 0x09;
    (a ^ (a >> 2)) & 0x03
}

fn enc_exec_u8(x: u8, y: u8, z: u8) -> (r: u8)
    ensures
        r == enc_u8(x, y, z),
{
    let sx = split_exec_u8(x);
    let sy = split_exec_u8(y);
    let sz = split_exec_u8(z);
    sx | (sy << 1) | (sz << 2)
}

impl ZOrderStore for u8 {
    type Elem = u8;

    open spec fn spec_bpe() -> int {
        2
    }

    open spec fn spec_signed() -> bool {
        false
    }

    open spec fn elem_int(e: u8) -> int {
        e as int
    }

    open spec fn raw_wf(r: u8) -> bool {
        r < 0x40
    }

    open spec fn axis(r: u8, i: int) -> int {
        axis_u8(r, i) as int
    }

    proof fn lemma_store_props() {
        lemma2_to64();
    }

    proof fn lemma_axis_range(r: u8, i: int) {
        z_facts_u8();
        lemma2_to64();
    }

    proof fn lemma_encode_injective(a: u8, b: u8) {
        z_facts_u8();
        assert(enc_u8(gather_u8(a), gather_u8(a >> 1), gather_u8(a >> 2)) == a);
        assert(enc_u8(gather_u8(b), gather_u8(b >> 1), gather_u8(b >> 2)) == b);
    }

    fn bits_per_element() -> usize {
        2
    }

    fn is_signed() -> bool {
        false
    }

    fn element_min() -> u8 {
        proof {
            lemma2_to64();
        }
        0
    }

    fn element_max() -> u8 {
        proof {
            lemma2_to64();
        }
        3
    }

    fn elem_le(a: u8, b: u8) -> bool {
        a <= b
    }

    fn encode_axes(x: u64, y: u64, z: u64) -> (r: u8) {
        proof {
            lemma2_to64();
        }
        let xe = x as u8;
        let ye = y as u8;
        let ze = z as u8;
        let r = enc_exec_u8(xe, ye, ze);
        proof {
            z_facts_u8();
            lemma_small_mod(x as nat, 4);
            lemma_small_mod(y as nat, 4);
            lemma_small_mod(z as nat, 4);
        }
        r
    }

    fn encode(x: u8, y: u8, z: u8) -> (r: u8) {
        proof {
            lemma2_to64();
        }
        let r = <u8 as ZOrderStore>::encode_axes(x as u64, y as u64, z as u64);
        proof {
            lemma_wrap_axis_identity(x as int, 2, false);
            lemma_wrap_axis_identity(y as int, 2, false);
            lemma_wrap_axis_identity(z as int, 2, false);
        }
        r
    }

    fn decode_axis(r: u8, i: usize) -> (e: u8) {
        proof {
            z_facts_u8();
        }
        let g = gather_exec_u8(
            if i == 0 {
                r
            } else if i == 1 {
                r >> 1
            } else {
                r >> 2
            },
        );
        g as u8
    }

    fn axis_wide(r: u8, i: usize) -> (v: i64) {
        proof {
            z_facts_u8();
        }
        <u8 as ZOrderStore>::decode_axis(r, i) as i64
    }

    fn mask_usable(r: u8) -> (m: u8) {
        proof {
            z_facts_u8();
        }
        r & 0x3F
    }

    fn add_op(a: u8, b: u8) -> (r: u8) {
        proof {
            z_add_facts_u8();
        }
        let xs = (a | 0x36) + (b & 0x09);
        let ys = (a | 0x2D) + (b & 0x12);
        let zs = (a | 0x1B) + (b & 0x24);
        let r = (xs & 0x09) | (ys & 0x12) | (zs & 0x24);
        proof {
            lemma2_to64();
            assert forall|i: int| 0 <= i < 3 implies <u8 as ZOrderStore>::axis(r, i) == wrap_axis(
                <u8 as ZOrderStore>::axis(a, i) + <u8 as ZOrderStore>::axis(b, i),
                2,
                false,
            ) by {
                lemma_mod_bound(axis_u8(a, i) + axis_u8(b, i), 4);
            }
        }
        r
    }

    fn sub_op(a: u8, b: u8) -> (r: u8) {
        proof {
            z_sub_facts_u8();
        }
        let xs = ((a & 0x09) | 0x40) - (b & 0x09);
        let ys = ((a & 0x12) | 0x40) - (b & 0x12);
        let zs = ((a & 0x24) | 0x40) - (b & 0x24);
        let r = (xs & 0x09) | (ys & 0x12) | (zs & 0x24);
        proof {
            lemma2_to64();
            assert forall|i: int| 0 <= i < 3 implies <u8 as ZOrderStore>::axis(r, i) == wrap_axis(
                <u8 as ZOrderStore>::axis(a, i) - <u8 as ZOrderStore>::axis(b, i),
                2,
                false,
            ) by {
                lemma_mod_add_multiples_vanish(axis_u8(a, i) - axis_u8(b, i), 4);
                lemma_mod_bound(axis_u8(a, i) + 4 - axis_u8(b, i), 4);
            }
        }
        r
    }
}

impl ZOrderStore for i8 {
    type Elem = i8;

    open spec fn spec_bpe() -> int {
        2
    }

    open spec fn spec_signed() -> bool {
        true
    }

    open spec fn elem_int(e: i8) -> int {
        e as int
    }

    open spec fn raw_wf(r: i8) -> bool {
        0 <= r && (r as int) < 0x40
    }

    open spec fn axis(r: i8, i: int) -> int {
        let g = axis_u8(r as u8, i) as int;
        if g >= 2 {
            g - 4
        } else {
            g
        }
    }

    proof fn lemma_store_props() {
        lemma2_to64();
    }

    proof fn lemma_axis_range(r: i8, i: int) {
        z_facts_u8();
        z_cast_facts_u8();
        lemma2_to64();
    }

    proof fn lemma_encode_injective(a: i8, b: i8) {
        z_facts_u8();
        z_cast_facts_u8();
        assert((a as u8) as int == a as int && (b as u8) as int == b as int);
        let au = a as u8;
        let bu = b as u8;
        assert(axis_u8(au, 0) == axis_u8(bu, 0) && axis_u8(au, 1) == axis_u8(bu, 1)
            && axis_u8(au, 2) == axis_u8(bu, 2));
        assert(enc_u8(gather_u8(au), gather_u8(au >> 1), gather_u8(au >> 2)) == au);
        assert(enc_u8(gather_u8(bu), gather_u8(bu >> 1), gather_u8(bu >> 2)) == bu);
        assert(au == bu);
    }

    fn bits_per_element() -> usize {
        2
    }

    fn is_signed() -> bool {
        true
    }

    fn element_min() -> i8 {
        proof {
            lemma2_to64();
        }
        -2
    }

    fn element_max() -> i8 {
        proof {
            lemma2_to64();
        }
        1
    }

    fn elem_le(a: i8, b: i8) -> bool {
        a <= b
    }

    fn encode_axes(x: u64, y: u64, z: u64) -> (r: i8) {
        proof {
            lemma2_to64();
        }
        let ru = <u8 as ZOrderStore>::encode_axes(x, y, z);
        proof {
            z_cast_facts_u8();
            lemma_small_mod(x as nat, 4);
            lemma_small_mod(y as nat, 4);
            lemma_small_mod(z as nat, 4);
        }
        ru as i8
    }

    fn encode(x: i8, y: i8, z: i8) -> (r: i8) {
        proof {
            lemma2_to64();
        }
        let xr: u64 = if x >= 0 {
            x as u64
        } else {
            (x as i64 + 4) as u64
        };
        let yr: u64 = if y >= 0 {
            y as u64
        } else {
            (y as i64 + 4) as u64
        };
        let zr: u64 = if z >= 0 {
            z as u64
        } else {
            (z as i64 + 4) as u64
        };
        let r = <i8 as ZOrderStore>::encode_axes(xr, yr, zr);
        proof {
            lemma_wrap_axis_identity(x as int, 2, true);
            lemma_wrap_axis_identity(y as int, 2, true);
            lemma_wrap_axis_identity(z as int, 2, true);
            if x < 0 {
                lemma_mod_add_multiples_vanish(x as int, 4);
            }
            if y < 0 {
                lemma_mod_add_multiples_vanish(y as int, 4);
            }
            if z < 0 {
                lemma_mod_add_multiples_vanish(z as int, 4);
            }
            lemma_wrap_axis_congruent(xr as int, x as int, 2, true);
            lemma_wrap_axis_congruent(yr as int, y as int, 2, true);
            lemma_wrap_axis_congruent(zr as int, z as int, 2, true);
        }
        r
    }

    fn decode_axis(r: i8, i: usize) -> (e: i8) {
        proof {
            z_facts_u8();
            z_cast_facts_u8();
        }
        let ru = r as u8;
        let g = gather_exec_u8(
            if i == 0 {
                ru
            } else if i == 1 {
                ru >> 1
            } else {
                ru >> 2
            },
        );
        if g >= 2 {
            ((g as i64) - 4) as i8
        } else {
            g as i8
        }
    }

    fn axis_wide(r: i8, i: usize) -> (v: i64) {
        proof {
            z_facts_u8();
        }
        <i8 as ZOrderStore>::decode_axis(r, i) as i64
    }

    fn mask_usable(r: i8) -> (m: i8) {
        proof {
            z_cast_facts_u8();
            z_facts_u8();
        }
        r & 0x3F
    }

    fn add_op(a: i8, b: i8) -> (r: i8) {
        proof {
            z_cast_facts_u8();
        }
        let ru = <u8 as ZOrderStore>::add_op(a as u8, b as u8);
        proof {
            lemma2_to64();
            assert forall|i: int| 0 <= i < 3 implies <i8 as ZOrderStore>::axis(ru as i8, i)
                == wrap_axis(
                <i8 as ZOrderStore>::axis(a, i) + <i8 as ZOrderStore>::axis(b, i),
                2,
                true,
            ) by {
                let ga = <u8 as ZOrderStore>::axis(a as u8, i);
                let gb = <u8 as ZOrderStore>::axis(b as u8, i);
                let sa = <i8 as ZOrderStore>::axis(a, i);
                let sb = <i8 as ZOrderStore>::axis(b, i);
                lemma_mod_add_multiples_vanish(sa + gb, 4);
                lemma_mod_add_multiples_vanish(sa + sb, 4);
                lemma_wrap_axis_congruent(ga + gb, sa + sb, 2, true);
                lemma_mod_bound(ga + gb, 4);
                lemma_small_mod(((ga + gb) % 4) as nat, 4);
                lemma_wrap_axis_congruent(
                    <u8 as ZOrderStore>::axis(ru, i),
                    ga + gb,
                    2,
                    true,
                );
            }
        }
        ru as i8
    }

    fn sub_op(a: i8, b: i8) -> (r: i8) {
        proof {
            z_cast_facts_u8();
        }
        let ru = <u8 as ZOrderStore>::sub_op(a as u8, b as u8);
        proof {
            lemma2_to64();
            assert forall|i: int| 0 <= i < 3 implies <i8 as ZOrderStore>::axis(ru as i8, i)
                == wrap_axis(
                <i8 as ZOrderStore>::axis(a, i) - <i8 as ZOrderStore>::axis(b, i),
                2,
                true,
            ) by {
                let ga = <u8 as ZOrderStore>::axis(a as u8, i);
                let gb = <u8 as ZOrderStore>::axis(b as u8, i);
                let sa = <i8 as ZOrderStore>::axis(a, i);
                let sb = <i8 as ZOrderStore>::axis(b, i);
                lemma_mod_add_multiples_vanish(sa - gb, 4);
                lemma_mod_add_multiples_vanish(sa - sb, 4);
                lemma_wrap_axis_congruent(ga - gb, sa - sb, 2, true);
                lemma_mod_bound(ga - gb, 4);
                lemma_small_mod(((ga - gb) % 4) as nat, 4);
                lemma_wrap_axis_congruent(
                    <u8 as ZOrderStore>::axis(ru, i),
                    ga - gb,
                    2,
                    true,
                );
            }
        }
        ru as i8
    }
}


pub open spec fn split_u16(x: u16) -> u16 {
    let a = (x | (x << 8)) & 0x100F;
    let b = (a | (a << 4)) & 0x10C3;
    (b | (b << 2)) & 0x1249
}

pub open spec fn gather_u16(z: u16) -> u16 {
    let a = z & 0x1249;
    let b = (a ^ (a >> 2)) & 0x10C3;
    let c = (b ^ (b >> 4)) & 0x100F;
    (c ^ (c >> 8)) & 0x001F
}

pub open spec fn enc_u16(x: u16, y: u16, z: u16) -> u16 {
    split_u16(x) | (split_u16(y) << 1) | (split_u16(z) << 2)
}

pub open spec fn axis_u16(r: u16, i: int) -> u16 {
    if i == 0 {
        gather_u16(r)
    } else if i == 1 {
        gather_u16(r >> 1)
    } else {
        gather_u16(r >> 2)
    }
}

/// The interleave and deinterleave cascades for u16 stores invert each other
/// on in-range axes, interleaving keeps the bits above the usable range
/// clear, and deinterleaving the three axes recovers a usable value exactly.
#[verifier::spinoff_prover]
pub proof fn z_facts_u16()
    by (bit_vector)
    ensures
        forall|x: u16, y: u16, z: u16| #[trigger] enc_u16(x, y, z) < 0x8000,
        forall|x: u16, y: u16, z: u16|
            x < 32 && y < 32 && z < 32 ==> gather_u16(#[trigger] enc_u16(x, y, z)) == x
                && gather_u16(enc_u16(x, y, z) >> 1) == y && gather_u16(enc_u16(x, y, z) >> 2)
                == z,
        forall|r: u16| #[trigger] gather_u16(r) < 32,
        forall|r: u16|
            r < 0x8000 ==> #[trigger] enc_u16(
                gather_u16(r),
                gather_u16(r >> 1),
                gather_u16(r >> 2),
            ) == r,
        forall|r: u16|
            #[trigger] (r & 0x7FFF) < 0x8000 && (r < 0x8000 ==> r & 0x7FFF == r)
                && gather_u16(r & 0x7FFF) == gather_u16(r) && gather_u16((r & 0x7FFF) >> 1)
                == gather_u16(r >> 1) && gather_u16((r & 0x7FFF) >> 2) == gather_u16(r >> 2),
{
}

/// Axis-wise wrapping addition for u16 stores: filling the two other axes
/// with ones lets carries pass over them without reaching the next axis bit.
#[verifier::spinoff_prover]
pub proof fn z_add_facts_u16()
    by (bit_vector)
    ensures
        forall|a: u16, b: u16|
            a < 0x8000 && b < 0x8000 ==> #[trigger] ((a | 0x6DB6u16) + (b & 0x1249)) < 0x10000 && (a
                | 0x5B6D) + (b & 0x2492) < 0x10000 && (a | 0x36DB) + (b & 0x4924) < 0x10000,
        forall|a: u16, b: u16|
            #![trigger a | 0x6DB6u16, b & 0x1249u16]
            a < 0x8000 && b < 0x8000 ==> ({
                let xs = ((a | 0x6DB6u16) + (b & 0x1249u16)) as u16;
                let ys = ((a | 0x5B6Du16) + (b & 0x2492u16)) as u16;
                let zs = ((a | 0x36DBu16) + (b & 0x4924u16)) as u16;
                let r = (xs & 0x1249) | (ys & 0x2492) | (zs & 0x4924);
                &&& r < 0x8000
                &&& axis_u16(r, 0) == ((axis_u16(a, 0) + axis_u16(b, 0)) as int) % 32
                &&& axis_u16(r, 1) == ((axis_u16(a, 1) + axis_u16(b, 1)) as int) % 32
                &&& axis_u16(r, 2) == ((axis_u16(a, 2) + axis_u16(b, 2)) as int) % 32
            }),
{
}

/// Axis-wise wrapping subtraction for u16 stores: with the two other axes
/// cleared, borrows travel over them to the next axis bit, and a guard bit
/// above the usable range absorbs the final borrow.
#[verifier::spinoff_prover]
pub proof fn z_sub_facts_u16()
    by (bit_vector)
    ensures
        forall|a: u16, b: u16|
            #![trigger (a & 0x1249u16) | 0x8000, b & 0x1249u16]
            a < 0x8000 && b < 0x8000 ==> ((a & 0x1249u16) | 0x8000) >= (b & 0x1249) && ((a
                & 0x2492) | 0x8000) >= (b & 0x2492) && ((a & 0x4924) | 0x8000) >= (b & 0x4924),
        forall|a: u16, b: u16|
            #![trigger (a & 0x1249u16) | 0x8000u16, b & 0x1249u16]
            a < 0x8000 && b < 0x8000 ==> ({
                let xs = ((((a & 0x1249u16) | 0x8000u16) - (b & 0x1249u16)) as int) as u16;
                let ys = ((((a & 0x2492u16) | 0x8000u16) - (b & 0x2492u16)) as int) as u16;
                let zs = ((((a & 0x4924u16) | 0x8000u16) - (b & 0x4924u16)) as int) as u16;
                let r = (xs & 0x1249) | (ys & 0x2492) | (zs & 0x4924);
                &&& r < 0x8000
                &&& axis_u16(r, 0) == ((axis_u16(a, 0) + 32 - axis_u16(b, 0)) as int) % 32
                &&& axis_u16(r, 1) == ((axis_u16(a, 1) + 32 - axis_u16(b, 1)) as int) % 32
                &&& axis_u16(r, 2) == ((axis_u16(a, 2) + 32 - axis_u16(b, 2)) as int) % 32
            }),
{
}

/// Casts between the signed and unsigned u16 stores preserve usable values.
#[verifier::spinoff_prover]
pub proof fn z_cast_facts_u16()
    by (bit_vector)
    ensures
        forall|r: i16|
            0 <= r && (r as int) < 0x8000 ==> (#[trigger] (r as u16)) < 0x8000 && (r as u16) as int
                == r as int,
        forall|ru: u16|
            ru < 0x8000 ==> (#[trigger] (ru as i16)) >= 0 && ((ru as i16) as int) < 0x8000 && (
            ru as i16) as u16 == ru,
        forall|r: i16|
            #[trigger] (r & 0x7FFF) >= 0 && ((r & 0x7FFF) as int) < 0x8000 && (0 <= r
                && (r as int) < 0x8000 ==> r & 0x7FFF == r) && ((r & 0x7FFF) as u16) == (
            r as u16) & 0x7FFF,
{
}

fn split_exec_u16(x: u16) -> (r: u16)
    ensures
        r == split_u16(x),
{
    let a = (x | (x << 8)) & 0x100F;
    let b = (a | (a << 4)) & 0x10C3;
    (b | (b << 2)) & 0x1249
}

fn gather_exec_u16(z: u16) -> (r: u16)
    ensures
        r == gather_u16(z),
{
    let a = z & 0x1249;
    let b = (a ^ (a >> 2)) & 0x10C3;
    let c = (b ^ (b >> 4)) & 0x100F;
    (c ^ (c >> 8)) & 0x001F
}

fn enc_exec_u16(x: u16, y: u16, z: u16) -> (r: u16)
    ensures
        r == enc_u16(x, y, z),
{
    let sx = split_exec_u16(x);
    let sy = split_exec_u16(y);
    let sz = split_exec_u16(z);
    sx | (sy << 1) | (sz << 2)
}

impl ZOrderStore for u16 {
    type Elem = u8;

    open spec fn spec_bpe() -> int {
        5
    }

    open spec fn spec_signed() -> bool {
        false
    }

    open spec fn elem_int(e: u8) -> int {
        e as int
    }

    open spec fn raw_wf(r: u16) -> bool {
        r < 0x8000
    }

    open spec fn axis(r: u16, i: int) -> int {
        axis_u16(r, i) as int
    }

    proof fn lemma_store_props() {
        lemma2_to64();
    }

    proof fn lemma_axis_range(r: u16, i: int) {
        z_facts_u16();
        lemma2_to64();
    }

    proof fn lemma_encode_injective(a: u16, b: u16) {
        z_facts_u16();
        assert(enc_u16(gather_u16(a), gather_u16(a >> 1), gather_u16(a >> 2)) == a);
        assert(enc_u16(gather_u16(b), gather_u16(b >> 1), gather_u16(b >> 2)) == b);
    }

    fn bits_per_element() -> usize {
        5
    }

    fn is_signed() -> bool {
        false
    }

    fn element_min() -> u8 {
        proof {
            lemma2_to64();
        }
        0
    }

    fn element_max() -> u8 {
        proof {
            lemma2_to64();
        }
        31
    }

    fn elem_le(a: u8, b: u8) -> bool {
        a <= b
    }

    fn encode_axes(x: u64, y: u64, z: u64) -> (r: u16) {
        proof {
            lemma2_to64();
        }
        let xe = x as u16;
        let ye = y as u16;
        let ze = z as u16;
        let r = enc_exec_u16(xe, ye, ze);
        proof {
            z_facts_u16();
            lemma_small_mod(x as nat, 32);
            lemma_small_mod(y as nat, 32);
            lemma_small_mod(z as nat, 32);
        }
        r
    }

    fn encode(x: u8, y: u8, z: u8) -> (r: u16) {
        proof {
            lemma2_to64();
        }
        let r = <u16 as ZOrderStore>::encode_axes(x as u64, y as u64, z as u64);
        proof {
            lemma_wrap_axis_identity(x as int, 5, false);
            lemma_wrap_axis_identity(y as int, 5, false);
            lemma_wrap_axis_identity(z as int, 5, false);
        }
        r
    }

    fn decode_axis(r: u16, i: usize) -> (e: u8) {
        proof {
            z_facts_u16();
        }
        let g = gather_exec_u16(
            if i == 0 {
                r
            } else if i == 1 {
                r >> 1
            } else {
                r >> 2
            },
        );
        g as u8
    }

    fn axis_wide(r: u16, i: usize) -> (v: i64) {
        proof {
            z_facts_u16();
        }
        <u16 as ZOrderStore>::decode_axis(r, i) as i64
    }

    fn mask_usable(r: u16) -> (m: u16) {
        proof {
            z_facts_u16();
        }
        r & 0x7FFF
    }

    fn add_op(a: u16, b: u16) -> (r: u16) {
        proof {
            z_add_facts_u16();
        }
        let xs = (a | 0x6DB6) + (b & 0x1249);
        let ys = (a | 0x5B6D) + (b & 0x2492);
        let zs = (a | 0x36DB) + (b & 0x4924);
        let r = (xs & 0x1249) | (ys & 0x2492) | (zs & 0x4924);
        proof {
            lemma2_to64();
            assert forall|i: int| 0 <= i < 3 implies <u16 as ZOrderStore>::axis(r, i) == wrap_axis(
                <u16 as ZOrderStore>::axis(a, i) + <u16 as ZOrderStore>::axis(b, i),
                5,
                false,
            ) by {
                lemma_mod_bound(axis_u16(a, i) + axis_u16(b, i), 32);
            }
        }
        r
    }

    fn sub_op(a: u16, b: u16) -> (r: u16) {
        proof {
            z_sub_facts_u16();
        }
        let xs = ((a & 0x1249) | 0x8000) - (b & 0x1249);
        let ys = ((a & 0x2492) | 0x8000) - (b & 0x2492);
        let zs = ((a & 0x4924) | 0x8000) - (b & 0x4924);
        let r = (xs & 0x1249) | (ys & 0x2492) | (zs & 0x4924);
        proof {
            lemma2_to64();
            assert forall|i: int| 0 <= i < 3 implies <u16 as ZOrderStore>::axis(r, i) == wrap_axis(
                <u16 as ZOrderStore>::axis(a, i) - <u16 as ZOrderStore>::axis(b, i),
                5,
                false,
            ) by {
                lemma_mod_add_multiples_vanish(axis_u16(a, i) - axis_u16(b, i), 32);
                lemma_mod_bound(axis_u16(a, i) + 32 - axis_u16(b, i), 32);
            }
        }
        r
    }
}

impl ZOrderStore for i16 {
    type Elem = i8;

    open spec fn spec_bpe() -> int {
        5
    }

    open spec fn spec_signed() -> bool {
        true
    }

    open spec fn elem_int(e: i8) -> int {
        e as int
    }

    open spec fn raw_wf(r: i16) -> bool {
        0 <= r && (r as int) < 0x8000
    }

    open spec fn axis(r: i16, i: int) -> int {
        let g = axis_u16(r as u16, i) as int;
        if g >= 16 {
            g - 32
        } else {
            g
        }
    }

    proof fn lemma_store_props() {
        lemma2_to64();
    }

    proof fn lemma_axis_range(r: i16, i: int) {
        z_facts_u16();
        z_cast_facts_u16();
        lemma2_to64();
    }

    proof fn lemma_encode_injective(a: i16, b: i16) {
        z_facts_u16();
        z_cast_facts_u16();
        assert((a as u16) as int == a as int && (b as u16) as int == b as int);
        let au = a as u16;
        let bu = b as u16;
        assert(axis_u16(au, 0) == axis_u16(bu, 0) && axis_u16(au, 1) == axis_u16(bu, 1)
            && axis_u16(au, 2) == axis_u16(bu, 2));
        assert(enc_u16(gather_u16(au), gather_u16(au >> 1), gather_u16(au >> 2)) == au);
        assert(enc_u16(gather_u16(bu), gather_u16(bu >> 1), gather_u16(bu >> 2)) == bu);
        assert(au == bu);
    }

    fn bits_per_element() -> usize {
        5
    }

    fn is_signed() -> bool {
        true
    }

    fn element_min() -> i8 {
        proof {
            lemma2_to64();
        }
        -16
    }

    fn element_max() -> i8 {
        proof {
            lemma2_to64();
        }
        15
    }

    fn elem_le(a: i8, b: i8) -> bool {
        a <= b
    }

    fn encode_axes(x: u64, y: u64, z: u64) -> (r: i16) {
        proof {
            lemma2_to64();
        }
        let ru = <u16 as ZOrderStore>::encode_axes(x, y, z);
        proof {
            z_cast_facts_u16();
            lemma_small_mod(x as nat, 32);
            lemma_small_mod(y as nat, 32);
            lemma_small_mod(z as nat, 32);
        }
        ru as i16
    }

    fn encode(x: i8, y: i8, z: i8) -> (r: i16) {
        proof {
            lemma2_to64();
        }
        let xr: u64 = if x >= 0 {
            x as u64
        } else {
            (x as i64 + 32) as u64
        };
        let yr: u64 = if y >= 0 {
            y as u64
        } else {
            (y as i64 + 32) as u64
        };
        let zr: u64 = if z >= 0 {
            z as u64
        } else {
            (z as i64 + 32) as u64
        };
        let r = <i16 as ZOrderStore>::encode_axes(xr, yr, zr);
        proof {
            lemma_wrap_axis_identity(x as int, 5, true);
            lemma_wrap_axis_identity(y as int, 5, true);
            lemma_wrap_axis_identity(z as int, 5, true);
            if x < 0 {
                lemma_mod_add_multiples_vanish(x as int, 32);
            }
            if y < 0 {
                lemma_mod_add_multiples_vanish(y as int, 32);
            }
            if z < 0 {
                lemma_mod_add_multiples_vanish(z as int, 32);
            }
            lemma_wrap_axis_congruent(xr as int, x as int, 5, true);
            lemma_wrap_axis_congruent(yr as int, y as int, 5, true);
            lemma_wrap_axis_congruent(zr as int, z as int, 5, true);
        }
        r
    }

    fn decode_axis(r: i16, i: usize) -> (e: i8) {
        proof {
            z_facts_u16();
            z_cast_facts_u16();
        }
        let ru = r as u16;
        let g = gather_exec_u16(
            if i == 0 {
                ru
            } else if i == 1 {
                ru >> 1
            } else {
                ru >> 2
            },
        );
        if g >= 16 {
            ((g as i64) - 32) as i8
        } else {
            g as i8
        }
    }

    fn axis_wide(r: i16, i: usize) -> (v: i64) {
        proof {
            z_facts_u16();
        }
        <i16 as ZOrderStore>::decode_axis(r, i) as i64
    }

    fn mask_usable(r: i16) -> (m: i16) {
        proof {
            z_cast_facts_u16();
            z_facts_u16();
        }
        r & 0x7FFF
    }

    fn add_op(a: i16, b: i16) -> (r: i16) {
        proof {
            z_cast_facts_u16();
        }
        let ru = <u16 as ZOrderStore>::add_op(a as u16, b as u16);
        proof {
            lemma2_to64();
            assert forall|i: int| 0 <= i < 3 implies <i16 as ZOrderStore>::axis(ru as i16, i)
                == wrap_axis(
                <i16 as ZOrderStore>::axis(a, i) + <i16 as ZOrderStore>::axis(b, i),
                5,
                true,
            ) by {
                let ga = <u16 as ZOrderStore>::axis(a as u16, i);
                let gb = <u16 as ZOrderStore>::axis(b as u16, i);
                let sa = <i16 as ZOrderStore>::axis(a, i);
                let sb = <i16 as ZOrderStore>::axis(b, i);
                lemma_mod_add_multiples_vanish(sa + gb, 32);
                lemma_mod_add_multiples_vanish(sa + sb, 32);
                lemma_wrap_axis_congruent(ga + gb, sa + sb, 5, true);
                lemma_mod_bound(ga + gb, 32);
                lemma_small_mod(((ga + gb) % 32) as nat, 32);
                lemma_wrap_axis_congruent(
                    <u16 as ZOrderStore>::axis(ru, i),
                    ga + gb,
                    5,
                    true,
                );
            }
        }
        ru as i16
    }

    fn sub_op(a: i16, b: i16) -> (r: i16) {
        proof {
            z_cast_facts_u16();
        }
        let ru = <u16 as ZOrderStore>::sub_op(a as u16, b as u16);
        proof {
            lemma2_to64();
            assert forall|i: int| 0 <= i < 3 implies <i16 as ZOrderStore>::axis(ru as i16, i)
                == wrap_axis(
                <i16 as ZOrderStore>::axis(a, i) - <i16 as ZOrderStore>::axis(b, i),
                5,
                true,
            ) by {
                let ga = <u16 as ZOrderStore>::axis(a as u16, i);
                let gb = <u16 as ZOrderStore>::axis(b as u16, i);
                let sa = <i16 as ZOrderStore>::axis(a, i);
                let sb = <i16 as ZOrderStore>::axis(b, i);
                lemma_mod_add_multiples_vanish(sa - gb, 32);
                lemma_mod_add_multiples_vanish(sa - sb, 32);
                lemma_wrap_axis_congruent(ga - gb, sa - sb, 5, true);
                lemma_mod_bound(ga - gb, 32);
                lemma_small_mod(((ga - gb) % 32) as nat, 32);
                lemma_wrap_axis_congruent(
                    <u16 as ZOrderStore>::axis(ru, i),
                    ga - gb,
                    5,
                    true,
                );
            }
        }
        ru as i16
    }
}


pub open spec fn split_u32(x: u32) -> u32 {
    let a = (x | (x << 16)) & 0x30000FF;
    let b = (a | (a << 8)) & 0x300F00F;
    let c = (b | (b << 4)) & 0x30C30C3;
    (c | (c << 2)) & 0x9249249
}

pub open spec fn gather_u32(z: u32) -> u32 {
    let a = z & 0x9249249;
    let b = (a ^ (a >> 2)) & 0x30C30C3;
    let c = (b ^ (b >> 4)) & 0x300F00F;
    let d = (c ^ (c >> 8)) & 0x30000FF;
    (d ^ (d >> 16)) & 0x3FF
}

pub open spec fn enc_u32(x: u32, y: u32, z: u32) -> u32 {
    split_u32(x) | (split_u32(y) << 1) | (split_u32(z) << 2)
}

pub open spec fn axis_u32(r: u32, i: int) -> u32 {
    if i == 0 {
        gather_u32(r)
    } else if i == 1 {
        gather_u32(r >> 1)
    } else {
        gather_u32(r >> 2)
    }
}

/// The interleave and deinterleave cascades for u32 stores invert each other
/// on in-range axes, interleaving keeps the bits above the usable range
/// clear, and deinterleaving the three axes recovers a usable value exactly.
#[verifier::spinoff_prover]
pub proof fn z_facts_u32()
    by (bit_vector)
    ensures
        forall|x: u32, y: u32, z: u32| #[trigger] enc_u32(x, y, z) < 0x40000000,
        forall|x: u32, y: u32, z: u32|
            x < 1024 && y < 1024 && z < 1024 ==> gather_u32(#[trigger] enc_u32(x, y, z)) == x
                && gather_u32(enc_u32(x, y, z) >> 1) == y && gather_u32(enc_u32(x, y, z) >> 2)
                == z,
        forall|r: u32| #[trigger] gather_u32(r) < 1024,
        forall|r: u32|
            r < 0x40000000 ==> #[trigger] enc_u32(
                gather_u32(r),
                gather_u32(r >> 1),
                gather_u32(r >> 2),
            ) == r,
        forall|r: u32|
            #[trigger] (r & 0x3FFFFFFF) < 0x40000000 && (r < 0x40000000 ==> r & 0x3FFFFFFF == r)
                && gather_u32(r & 0x3FFFFFFF) == gather_u32(r) && gather_u32((r & 0x3FFFFFFF) >> 1)
                == gather_u32(r >> 1) && gather_u32((r & 0x3FFFFFFF) >> 2) == gather_u32(r >> 2),
{
}

/// Axis-wise wrapping addition for u32 stores: filling the two other axes
/// with ones lets carries pass over them without reaching the next axis bit.
#[verifier::spinoff_prover]
pub proof fn z_add_facts_u32()
    by (bit_vector)
    ensures
        forall|a: u32, b: u32|
            a < 0x40000000 && b < 0x40000000 ==> #[trigger] ((a | 0x36DB6DB6u32) + (b & 0x09249249)) < 0x1_0000_0000 && (a
                | 0x2DB6DB6D) + (b & 0x12492492) < 0x1_0000_0000 && (a | 0x1B6DB6DB) + (b & 0x24924924) < 0x1_0000_0000,
        forall|a: u32, b: u32|
            #![trigger a | 0x36DB6DB6u32, b & 0x09249249u32]
            a < 0x40000000 && b < 0x40000000 ==> ({
                let xs = ((a | 0x36DB6DB6u32) + (b & 0x09249249u32)) as u32;
                let ys = ((a | 0x2DB6DB6Du32) + (b & 0x12492492u32)) as u32;
                let zs = ((a | 0x1B6DB6DBu32) + (b & 0x24924924u32)) as u32;
                let r = (xs & 0x09249249) | (ys & 0x12492492) | (zs & 0x24924924);
                &&& r < 0x40000000
                &&& axis_u32(r, 0) == ((axis_u32(a, 0) + axis_u32(b, 0)) as int) % 1024
                &&& axis_u32(r, 1) == ((axis_u32(a, 1) + axis_u32(b, 1)) as int) % 1024
                &&& axis_u32(r, 2) == ((axis_u32(a, 2) + axis_u32(b, 2)) as int) % 1024
            }),
{
}

/// Axis-wise wrapping subtraction for u32 stores: with the two other axes
/// cleared, borrows travel over them to the next axis bit, and a guard bit
/// above the usable range absorbs the final borrow.
#[verifier::spinoff_prover]
pub proof fn z_sub_facts_u32()
    by (bit_vector)
    ensures
        forall|a: u32, b: u32|
            #![trigger (a & 0x09249249u32) | 0x40000000, b & 0x09249249u32]
            a < 0x40000000 && b < 0x40000000 ==> ((a & 0x09249249u32) | 0x40000000) >= (b & 0x09249249) && ((a
                & 0x12492492) | 0x40000000) >= (b & 0x12492492) && ((a & 0x24924924) | 0x40000000) >= (b & 0x24924924),
        forall|a: u32, b: u32|
            #![trigger (a & 0x09249249u32) | 0x40000000u32, b & 0x09249249u32]
            a < 0x40000000 && b < 0x40000000 ==> ({
                let xs = ((((a & 0x09249249u32) | 0x40000000u32) - (b & 0x09249249u32)) as int) as u32;
                let ys = ((((a & 0x12492492u32) | 0x40000000u32) - (b & 0x12492492u32)) as int) as u32;
                let zs = ((((a & 0x24924924u32) | 0x40000000u32) - (b & 0x24924924u32)) as int) as u32;
                let r = (xs & 0x09249249) | (ys & 0x12492492) | (zs & 0x24924924);
                &&& r < 0x40000000
                &&& axis_u32(r, 0) == ((axis_u32(a, 0) + 1024 - axis_u32(b, 0)) as int) % 1024
                &&& axis_u32(r, 1) == ((axis_u32(a, 1) + 1024 - axis_u32(b, 1)) as int) % 1024
                &&& axis_u32(r, 2) == ((axis_u32(a, 2) + 1024 - axis_u32(b, 2)) as int) % 1024
            }),
{
}

/// Casts between the signed and unsigned u32 stores preserve usable values.
#[verifier::spinoff_prover]
pub proof fn z_cast_facts_u32()
    by (bit_vector)
    ensures
        forall|r: i32|
            0 <= r && (r as int) < 0x40000000 ==> (#[trigger] (r as u32)) < 0x40000000 && (r as u32) as int
                == r as int,
        forall|ru: u32|
            ru < 0x40000000 ==> (#[trigger] (ru as i32)) >= 0 && ((ru as i32) as int) < 0x40000000 && (
            ru as i32) as u32 == ru,
        forall|r: i32|
            #[trigger] (r & 0x3FFFFFFF) >= 0 && ((r & 0x3FFFFFFF) as int) < 0x40000000 && (0 <= r
                && (r as int) < 0x40000000 ==> r & 0x3FFFFFFF == r) && ((r & 0x3FFFFFFF) as u32) == (
            r as u32) & 0x3FFFFFFF,
{
}

fn split_exec_u32(x: u32) -> (r: u32)
    ensures
        r == split_u32(x),
{
    let a = (x | (x << 16)) & 0x30000FF;
    let b = (a | (a << 8)) & 0x300F00F;
    let c = (b | (b << 4)) & 0x30C30C3;
    (c | (c << 2)) & 0x9249249
}

fn gather_exec_u32(z: u32) -> (r: u32)
    ensures
        r == gather_u32(z),
{
    let a = z & 0x9249249;
    let b = (a ^ (a >> 2)) & 0x30C30C3;
    let c = (b ^ (b >> 4)) & 0x300F00F;
    let d = (c ^ (c >> 8)) & 0x30000FF;
    (d ^ (d >> 16)) & 0x3FF
}

fn enc_exec_u32(x: u32, y: u32, z: u32) -> (r: u32)
    ensures
        r == enc_u32(x, y, z),
{
    let sx = split_exec_u32(x);
    let sy = split_exec_u32(y);
    let sz = split_exec_u32(z);
    sx | (sy << 1) | (sz << 2)
}

impl ZOrderStore for u32 {
    type Elem = u16;

    open spec fn spec_bpe() -> int {
        10
    }

    open spec fn spec_signed() -> bool {
        false
    }

    open spec fn elem_int(e: u16) -> int {
        e as int
    }

    open spec fn raw_wf(r: u32) -> bool {
        r < 0x40000000
    }

    open spec fn axis(r: u32, i: int) -> int {
        axis_u32(r, i) as int
    }

    proof fn lemma_store_props() {
        lemma2_to64();
    }

    proof fn lemma_axis_range(r: u32, i: int) {
        z_facts_u32();
        lemma2_to64();
    }

    proof fn lemma_encode_injective(a: u32, b: u32) {
        z_facts_u32();
        assert(enc_u32(gather_u32(a), gather_u32(a >> 1), gather_u32(a >> 2)) == a);
        assert(enc_u32(gather_u32(b), gather_u32(b >> 1), gather_u32(b >> 2)) == b);
    }

    fn bits_per_element() -> usize {
        10
    }

    fn is_signed() -> bool {
        false
    }

    fn element_min() -> u16 {
        proof {
            lemma2_to64();
        }
        0
    }

    fn element_max() -> u16 {
        proof {
            lemma2_to64();
        }
        1023
    }

    fn elem_le(a: u16, b: u16) -> bool {
        a <= b
    }

    fn encode_axes(x: u64, y: u64, z: u64) -> (r: u32) {
        proof {
            lemma2_to64();
        }
        let xe = x as u32;
        let ye = y as u32;
        let ze = z as u32;
        let r = enc_exec_u32(xe, ye, ze);
        proof {
            z_facts_u32();
            lemma_small_mod(x as nat, 1024);
            lemma_small_mod(y as nat, 1024);
            lemma_small_mod(z as nat, 1024);
        }
        r
    }

    fn encode(x: u16, y: u16, z: u16) -> (r: u32) {
        proof {
            lemma2_to64();
        }
        let r = <u32 as ZOrderStore>::encode_axes(x as u64, y as u64, z as u64);
        proof {
            lemma_wrap_axis_identity(x as int, 10, false);
            lemma_wrap_axis_identity(y as int, 10, false);
            lemma_wrap_axis_identity(z as int, 10, false);
        }
        r
    }

    fn decode_axis(r: u32, i: usize) -> (e: u16) {
        proof {
            z_facts_u32();
        }
        let g = gather_exec_u32(
            if i == 0 {
                r
            } else if i == 1 {
                r >> 1
            } else {
                r >> 2
            },
        );
        g as u16
    }

    fn axis_wide(r: u32, i: usize) -> (v: i64) {
        proof {
            z_facts_u32();
        }
        <u32 as ZOrderStore>::decode_axis(r, i) as i64
    }

    fn mask_usable(r: u32) -> (m: u32) {
        proof {
            z_facts_u32();
        }
        r & 0x3FFFFFFF
    }

    fn add_op(a: u32, b: u32) -> (r: u32) {
        proof {
            z_add_facts_u32();
        }
        let xs = (a | 0x36DB6DB6) + (b & 0x09249249);
        let ys = (a | 0x2DB6DB6D) + (b & 0x12492492);
        let zs = (a | 0x1B6DB6DB) + (b & 0x24924924);
        let r = (xs & 0x09249249) | (ys & 0x12492492) | (zs & 0x24924924);
        proof {
            lemma2_to64();
            assert forall|i: int| 0 <= i < 3 implies <u32 as ZOrderStore>::axis(r, i) == wrap_axis(
                <u32 as ZOrderStore>::axis(a, i) + <u32 as ZOrderStore>::axis(b, i),
                10,
                false,
            ) by {
                lemma_mod_bound(axis_u32(a, i) + axis_u32(b, i), 1024);
            }
        }
        r
    }

    fn sub_op(a: u32, b: u32) -> (r: u32) {
        proof {
            z_sub_facts_u32();
        }
        let xs = ((a & 0x09249249) | 0x40000000) - (b & 0x09249249);
        let ys = ((a & 0x12492492) | 0x40000000) - (b & 0x12492492);
        let zs = ((a & 0x24924924) | 0x40000000) - (b & 0x24924924);
        let r = (xs & 0x09249249) | (ys & 0x12492492) | (zs & 0x24924924);
        proof {
            lemma2_to64();
            assert forall|i: int| 0 <= i < 3 implies <u32 as ZOrderStore>::axis(r, i) == wrap_axis(
                <u32 as ZOrderStore>::axis(a, i) - <u32 as ZOrderStore>::axis(b, i),
                10,
                false,
            ) by {
                lemma_mod_add_multiples_vanish(axis_u32(a, i) - axis_u32(b, i), 1024);
                lemma_mod_bound(axis_u32(a, i) + 1024 - axis_u32(b, i), 1024);
            }
        }
        r
    }
}

impl ZOrderStore for i32 {
    type Elem = i16;

    open spec fn spec_bpe() -> int {
        10
    }

    open spec fn spec_signed() -> bool {
        true
    }

    open spec fn elem_int(e: i16) -> int {
        e as int
    }

    open spec fn raw_wf(r: i32) -> bool {
        0 <= r && (r as int) < 0x40000000
    }

    open spec fn axis(r: i32, i: int) -> int {
        let g = axis_u32(r as u32, i) as int;
        if g >= 512 {
            g - 1024
        } else {
            g
        }
    }

    proof fn lemma_store_props() {
        lemma2_to64();
    }

    proof fn lemma_axis_range(r: i32, i: int) {
        z_facts_u32();
        z_cast_facts_u32();
        lemma2_to64();
    }

    proof fn lemma_encode_injective(a: i32, b: i32) {
        z_facts_u32();
        z_cast_facts_u32();
        assert((a as u32) as int == a as int && (b as u32) as int == b as int);
        let au = a as u32;
        let bu = b as u32;
        assert(axis_u32(au, 0) == axis_u32(bu, 0) && axis_u32(au, 1) == axis_u32(bu, 1)
            && axis_u32(au, 2) == axis_u32(bu, 2));
        assert(enc_u32(gather_u32(au), gather_u32(au >> 1), gather_u32(au >> 2)) == au);
        assert(enc_u32(gather_u32(bu), gather_u32(bu >> 1), gather_u32(bu >> 2)) == bu);
        assert(au == bu);
    }

    fn bits_per_element() -> usize {
        10
    }

    fn is_signed() -> bool {
        true
    }

    fn element_min() -> i16 {
        proof {
            lemma2_to64();
        }
        -512
    }

    fn element_max() -> i16 {
        proof {
            lemma2_to64();
        }
        511
    }

    fn elem_le(a: i16, b: i16) -> bool {
        a <= b
    }

    fn encode_axes(x: u64, y: u64, z: u64) -> (r: i32) {
        proof {
            lemma2_to64();
        }
        let ru = <u32 as ZOrderStore>::encode_axes(x, y, z);
        proof {
            z_cast_facts_u32();
            lemma_small_mod(x as nat, 1024);
            lemma_small_mod(y as nat, 1024);
            lemma_small_mod(z as nat, 1024);
        }
        ru as i32
    }

    fn encode(x: i16, y: i16, z: i16) -> (r: i32) {
        proof {
            lemma2_to64();
        }
        let xr: u64 = if x >= 0 {
            x as u64
        } else {
            (x as i64 + 1024) as u64
        };
        let yr: u64 = if y >= 0 {
            y as u64
        } else {
            (y as i64 + 1024) as u64
        };
        let zr: u64 = if z >= 0 {
            z as u64
        } else {
            (z as i64 + 1024) as u64
        };
        let r = <i32 as ZOrderStore>::encode_axes(xr, yr, zr);
        proof {
            lemma_wrap_axis_identity(x as int, 10, true);
            lemma_wrap_axis_identity(y as int, 10, true);
            lemma_wrap_axis_identity(z as int, 10, true);
            if x < 0 {
                lemma_mod_add_multiples_vanish(x as int, 1024);
            }
            if y < 0 {
                lemma_mod_add_multiples_vanish(y as int, 1024);
            }
            if z < 0 {
                lemma_mod_add_multiples_vanish(z as int, 1024);
            }
            lemma_wrap_axis_congruent(xr as int, x as int, 10, true);
            lemma_wrap_axis_congruent(yr as int, y as int, 10, true);
            lemma_wrap_axis_congruent(zr as int, z as int, 10, true);
        }
        r
    }

    fn decode_axis(r: i32, i: usize) -> (e: i16) {
        proof {
            z_facts_u32();
            z_cast_facts_u32();
        }
        let ru = r as u32;
        let g = gather_exec_u32(
            if i == 0 {
                ru
            } else if i == 1 {
                ru >> 1
            } else {
                ru >> 2
            },
        );
        if g >= 512 {
            ((g as i64) - 1024) as i16
        } else {
            g as i16
        }
    }

    fn axis_wide(r: i32, i: usize) -> (v: i64) {
        proof {
            z_facts_u32();
        }
        <i32 as ZOrderStore>::decode_axis(r, i) as i64
    }

    fn mask_usable(r: i32) -> (m: i32) {
        proof {
            z_cast_facts_u32();
            z_facts_u32();
        }
        r & 0x3FFFFFFF
    }

    fn add_op(a: i32, b: i32) -> (r: i32) {
        proof {
            z_cast_facts_u32();
        }
        let ru = <u32 as ZOrderStore>::add_op(a as u32, b as u32);
        proof {
            lemma2_to64();
            assert forall|i: int| 0 <= i < 3 implies <i32 as ZOrderStore>::axis(ru as i32, i)
                == wrap_axis(
                <i32 as ZOrderStore>::axis(a, i) + <i32 as ZOrderStore>::axis(b, i),
                10,
                true,
            ) by {
                let ga = <u32 as ZOrderStore>::axis(a as u32, i);
                let gb = <u32 as ZOrderStore>::axis(b as u32, i);
                let sa = <i32 as ZOrderStore>::axis(a, i);
                let sb = <i32 as ZOrderStore>::axis(b, i);
                lemma_mod_add_multiples_vanish(sa + gb, 1024);
                lemma_mod_add_multiples_vanish(sa + sb, 1024);
                lemma_wrap_axis_congruent(ga + gb, sa + sb, 10, true);
                lemma_mod_bound(ga + gb, 1024);
                lemma_small_mod(((ga + gb) % 1024) as nat, 1024);
                lemma_wrap_axis_congruent(
                    <u32 as ZOrderStore>::axis(ru, i),
                    ga + gb,
                    10,
                    true,
                );
            }
        }
        ru as i32
    }

    fn sub_op(a: i32, b: i32) -> (r: i32) {
        proof {
            z_cast_facts_u32();
        }
        let ru = <u32 as ZOrderStore>::sub_op(a as u32, b as u32);
        proof {
            lemma2_to64();
            assert forall|i: int| 0 <= i < 3 implies <i32 as ZOrderStore>::axis(ru as i32, i)
                == wrap_axis(
                <i32 as ZOrderStore>::axis(a, i) - <i32 as ZOrderStore>::axis(b, i),
                10,
                true,
            ) by {
                let ga = <u32 as ZOrderStore>::axis(a as u32, i);
                let gb = <u32 as ZOrderStore>::axis(b as u32, i);
                let sa = <i32 as ZOrderStore>::axis(a, i);
                let sb = <i32 as ZOrderStore>::axis(b, i);
                lemma_mod_add_multiples_vanish(sa - gb, 1024);
                lemma_mod_add_multiples_vanish(sa - sb, 1024);
                lemma_wrap_axis_congruent(ga - gb, sa - sb, 10, true);
                lemma_mod_bound(ga - gb, 1024);
                lemma_small_mod(((ga - gb) % 1024) as nat, 1024);
                lemma_wrap_axis_congruent(
                    <u32 as ZOrderStore>::axis(ru, i),
                    ga - gb,
                    10,
                    true,
                );
            }
        }
        ru as i32
    }
}


pub open spec fn split_u64(x: u64) -> u64 {
    let a = (x | (x << 32)) & 0x1F00000000FFFF;
    let b = (a | (a << 16)) & 0x1F0000FF0000FF;
    let c = (b | (b << 8)) & 0x100F00F00F00F00F;
    let d = (c | (c << 4)) & 0x10C30C30C30C30C3;
    (d | (d << 2)) & 0x1249249249249249
}

pub open spec fn gather_u64(z: u64) -> u64 {
    let a = z & 0x1249249249249249;
    let b = (a ^ (a >> 2)) & 0x10C30C30C30C30C3;
    let c = (b ^ (b >> 4)) & 0x100F00F00F00F00F;
    let d = (c ^ (c >> 8)) & 0x1F0000FF0000FF;
    let e = (d ^ (d >> 16)) & 0x1F00000000FFFF;
    (e ^ (e >> 32)) & 0x1FFFFF
}

pub open spec fn enc_u64(x: u64, y: u64, z: u64) -> u64 {
    split_u64(x) | (split_u64(y) << 1) | (split_u64(z) << 2)
}

pub open spec fn axis_u64(r: u64, i: int) -> u64 {
    if i == 0 {
        gather_u64(r)
    } else if i == 1 {
        gather_u64(r >> 1)
    } else {
        gather_u64(r >> 2)
    }
}

/// The interleave and deinterleave cascades for u64 stores invert each other
/// on in-range axes, interleaving keeps the bits above the usable range
/// clear, and deinterleaving the three axes recovers a usable value exactly.
#[verifier::spinoff_prover]
pub proof fn z_facts_u64()
    by (bit_vector)
    ensures
        forall|x: u64, y: u64, z: u64| #[trigger] enc_u64(x, y, z) < 0x8000000000000000,
        forall|x: u64, y: u64, z: u64|
            x < 0x200000 && y < 0x200000 && z < 0x200000 ==> gather_u64(#[trigger] enc_u64(x, y, z)) == x
                && gather_u64(enc_u64(x, y, z) >> 1) == y && gather_u64(enc_u64(x, y, z) >> 2)
                == z,
        forall|r: u64| #[trigger] gather_u64(r) < 0x200000,
        forall|r: u64|
            r < 0x8000000000000000 ==> #[trigger] enc_u64(
                gather_u64(r),
                gather_u64(r >> 1),
                gather_u64(r >> 2),
            ) == r,
        forall|r: u64|
            #[trigger] (r & 0x7FFFFFFFFFFFFFFF) < 0x8000000000000000 && (r < 0x8000000000000000 ==> r & 0x7FFFFFFFFFFFFFFF == r)
                && gather_u64(r & 0x7FFFFFFFFFFFFFFF) == gather_u64(r) && gather_u64((r & 0x7FFFFFFFFFFFFFFF) >> 1)
                == gather_u64(r >> 1) && gather_u64((r & 0x7FFFFFFFFFFFFFFF) >> 2) == gather_u64(r >> 2),
        forall|x: u64, y: u64, z: u64, s: u64|
            #![trigger enc_u64(x, y, z), 1u64 << s]
            s <= 21 && x < (1u64 << s) && y < (1u64 << s) && z < (1u64 << s) ==> enc_u64(x, y, z)
                < (1u64 << (3 * s)),
        forall|x: u64, y: u64, z: u64, dx: u64, dy: u64, dz: u64|
            x < 0x100000 && y < 0x100000 && z < 0x100000 && dx < 2 && dy < 2 && dz < 2
                ==> #[trigger] enc_u64((2 * x + dx) as u64, (2 * y + dy) as u64, (2 * z + dz) as u64)
                == 8 * enc_u64(x, y, z) + dx + 2 * dy + 4 * dz,
{
}

/// A left shift of one doubles, so a shift by `s` is the `s`-th power of two.
pub proof fn z_shift_double_facts()
    by (bit_vector)
    ensures
        forall|s: u64| s < 63 ==> (1u64 << (s + 1)) == 2 * (#[trigger] (1u64 << s)),
        (1u64 << 0u64) == 1,
{
}

pub proof fn lemma_shift_is_pow2(s: u64)
    requires
        s <= 63,
    ensures
        (1u64 << s) as int == vstd::arithmetic::power2::pow2(s as nat),
    decreases s,
{
    z_shift_double_facts();
    lemma2_to64();
    if s > 0 {
        lemma_shift_is_pow2((s - 1) as u64);
        vstd::arithmetic::power2::lemma_pow2_adds((s - 1) as nat, 1);
        assert((1u64 << (((s - 1) as u64) + 1)) == 2 * (1u64 << ((s - 1) as u64)));
        assert(((s - 1) as u64) + 1 == s);
    }
}

/// Axis-wise wrapping addition for u64 stores: filling the two other axes
/// with ones lets carries pass over them without reaching the next axis bit.
#[verifier::spinoff_prover]
pub proof fn z_add_facts_u64()
    by (bit_vector)
    ensures
        forall|a: u64, b: u64|
            a < 0x8000000000000000 && b < 0x8000000000000000 ==> #[trigger] ((a | 0x6DB6DB6DB6DB6DB6u64) + (b & 0x1249249249249249)) < 0x1_0000_0000_0000_0000 && (a
                | 0x5B6DB6DB6DB6DB6D) + (b & 0x2492492492492492) < 0x1_0000_0000_0000_0000 && (a | 0x36DB6DB6DB6DB6DB) + (b & 0x4924924924924924) < 0x1_0000_0000_0000_0000,
        forall|a: u64, b: u64|
            #![trigger a | 0x6DB6DB6DB6DB6DB6u64, b & 0x1249249249249249u64]
            a < 0x8000000000000000 && b < 0x8000000000000000 ==> ({
                let xs = ((a | 0x6DB6DB6DB6DB6DB6u64) + (b & 0x1249249249249249u64)) as u64;
                let ys = ((a | 0x5B6DB6DB6DB6DB6Du64) + (b & 0x2492492492492492u64)) as u64;
                let zs = ((a | 0x36DB6DB6DB6DB6DBu64) + (b & 0x4924924924924924u64)) as u64;
                let r = (xs & 0x1249249249249249) | (ys & 0x2492492492492492) | (zs & 0x4924924924924924);
                &&& r < 0x8000000000000000
                &&& axis_u64(r, 0) == ((axis_u64(a, 0) + axis_u64(b, 0)) as int) % 0x200000
                &&& axis_u64(r, 1) == ((axis_u64(a, 1) + axis_u64(b, 1)) as int) % 0x200000
                &&& axis_u64(r, 2) == ((axis_u64(a, 2) + axis_u64(b, 2)) as int) % 0x200000
            }),
{
}

/// Axis-wise wrapping subtraction for u64 stores: with the two other axes
/// cleared, borrows travel over them to the next axis bit, and a guard bit
/// above the usable range absorbs the final borrow.
#[verifier::spinoff_prover]
pub proof fn z_sub_facts_u64()
    by (bit_vector)
    ensures
        forall|a: u64, b: u64|
            #![trigger (a & 0x1249249249249249u64) | 0x8000000000000000, b & 0x1249249249249249u64]
            a < 0x8000000000000000 && b < 0x8000000000000000 ==> ((a & 0x1249249249249249u64) | 0x8000000000000000) >= (b & 0x1249249249249249) && ((a
                & 0x2492492492492492) | 0x8000000000000000) >= (b & 0x2492492492492492) && ((a & 0x4924924924924924) | 0x8000000000000000) >= (b & 0x4924924924924924),
        forall|a: u64, b: u64|
            #![trigger (a & 0x1249249249249249u64) | 0x8000000000000000u64, b & 0x1249249249249249u64]
            a < 0x8000000000000000 && b < 0x8000000000000000 ==> ({
                let xs = ((((a & 0x1249249249249249u64) | 0x8000000000000000u64) - (b & 0x1249249249249249u64)) as int) as u64;
                let ys = ((((a & 0x2492492492492492u64) | 0x8000000000000000u64) - (b & 0x2492492492492492u64)) as int) as u64;
                let zs = ((((a & 0x4924924924924924u64) | 0x8000000000000000u64) - (b & 0x4924924924924924u64)) as int) as u64;
                let r = (xs & 0x1249249249249249) | (ys & 0x2492492492492492) | (zs & 0x4924924924924924);
                &&& r < 0x8000000000000000
                &&& axis_u64(r, 0) == ((axis_u64(a, 0) + 0x200000 - axis_u64(b, 0)) as int) % 0x200000
                &&& axis_u64(r, 1) == ((axis_u64(a, 1) + 0x200000 - axis_u64(b, 1)) as int) % 0x200000
                &&& axis_u64(r, 2) == ((axis_u64(a, 2) + 0x200000 - axis_u64(b, 2)) as int) % 0x200000
            }),
{
}

/// Casts between the signed and unsigned u64 stores preserve usable values.
#[verifier::spinoff_prover]
pub proof fn z_cast_facts_u64()
    by (bit_vector)
    ensures
        forall|r: i64|
            0 <= r && (r as int) < 0x8000000000000000 ==> (#[trigger] (r as u64)) < 0x8000000000000000 && (r as u64) as int
                == r as int,
        forall|ru: u64|
            ru < 0x8000000000000000 ==> (#[trigger] (ru as i64)) >= 0 && ((ru as i64) as int) < 0x8000000000000000 && (
            ru as i64) as u64 == ru,
        forall|r: i64|
            #[trigger] (r & 0x7FFFFFFFFFFFFFFF) >= 0 && ((r & 0x7FFFFFFFFFFFFFFF) as int) < 0x8000000000000000 && (0 <= r
                && (r as int) < 0x8000000000000000 ==> r & 0x7FFFFFFFFFFFFFFF == r) && ((r & 0x7FFFFFFFFFFFFFFF) as u64) == (
            r as u64) & 0x7FFFFFFFFFFFFFFF,
{
}

/// In-range axes interleave and deinterleave exactly on 64-bit stores.
proof fn z64_encode_helper(x: u64, y: u64, z: u64)
    requires
        x < 0x200000,
        y < 0x200000,
        z < 0x200000,
    ensures
        enc_u64(x, y, z) < 0x8000000000000000,
        axis_u64(enc_u64(x, y, z), 0) == x,
        axis_u64(enc_u64(x, y, z), 1) == y,
        axis_u64(enc_u64(x, y, z), 2) == z,
{
    z_facts_u64();
}

fn split_exec_u64(x: u64) -> (r: u64)
    ensures
        r == split_u64(x),
{
    let a = (x | (x << 32)) & 0x1F00000000FFFF;
    let b = (a | (a << 16)) & 0x1F0000FF0000FF;
    let c = (b | (b << 8)) & 0x100F00F00F00F00F;
    let d = (c | (c << 4)) & 0x10C30C30C30C30C3;
    (d | (d << 2)) & 0x1249249249249249
}

fn gather_exec_u64(z: u64) -> (r: u64)
    ensures
        r == gather_u64(z),
{
    let a = z & 0x1249249249249249;
    let b = (a ^ (a >> 2)) & 0x10C30C30C30C30C3;
    let c = (b ^ (b >> 4)) & 0x100F00F00F00F00F;
    let d = (c ^ (c >> 8)) & 0x1F0000FF0000FF;
    let e = (d ^ (d >> 16)) & 0x1F00000000FFFF;
    (e ^ (e >> 32)) & 0x1FFFFF
}

pub(crate) fn enc_exec_u64(x: u64, y: u64, z: u64) -> (r: u64)
    ensures
        r == enc_u64(x, y, z),
{
    let sx = split_exec_u64(x);
    let sy = split_exec_u64(y);
    let sz = split_exec_u64(z);
    sx | (sy << 1) | (sz << 2)
}

impl ZOrderStore for u64 {
    type Elem = u32;

    open spec fn spec_bpe() -> int {
        21
    }

    open spec fn spec_signed() -> bool {
        false
    }

    open spec fn elem_int(e: u32) -> int {
        e as int
    }

    open spec fn raw_wf(r: u64) -> bool {
        r < 0x8000000000000000
    }

    open spec fn axis(r: u64, i: int) -> int {
        axis_u64(r, i) as int
    }

    proof fn lemma_store_props() {
        lemma2_to64();
    }

    proof fn lemma_axis_range(r: u64, i: int) {
        z_facts_u64();
        lemma2_to64();
    }

    proof fn lemma_encode_injective(a: u64, b: u64) {
        z_facts_u64();
        assert(enc_u64(gather_u64(a), gather_u64(a >> 1), gather_u64(a >> 2)) == a);
        assert(enc_u64(gather_u64(b), gather_u64(b >> 1), gather_u64(b >> 2)) == b);
    }

    fn bits_per_element() -> usize {
        21
    }

    fn is_signed() -> bool {
        false
    }

    fn element_min() -> u32 {
        proof {
            lemma2_to64();
        }
        0
    }

    fn element_max() -> u32 {
        proof {
            lemma2_to64();
        }
        0x1FFFFF
    }

    fn elem_le(a: u32, b: u32) -> bool {
        a <= b
    }

    fn encode_axes(x: u64, y: u64, z: u64) -> (r: u64) {
        proof {
            assert(pow2(21) == 0x200000) by {
                lemma2_to64();
            }
        }
        let r = enc_exec_u64(x, y, z);
        proof {
            assert((x as int) < pow2(<u64 as ZOrderStore>::spec_bpe() as nat));
            assert((x as int) < pow2(21 as nat));
            z64_encode_helper(x, y, z);
            assert(wrap_axis(x as int, 21, false) == x as int) by {
                lemma2_to64();
                lemma_small_mod(x as nat, 0x200000);
            }
            assert(wrap_axis(y as int, 21, false) == y as int) by {
                lemma2_to64();
                lemma_small_mod(y as nat, 0x200000);
            }
            assert(wrap_axis(z as int, 21, false) == z as int) by {
                lemma2_to64();
                lemma_small_mod(z as nat, 0x200000);
            }
            assert(<u64 as ZOrderStore>::raw_wf(r));
            assert(<u64 as ZOrderStore>::axis(r, 0) == x as int);
            assert(<u64 as ZOrderStore>::axis(r, 0) == wrap_axis(
                x as int,
                <u64 as ZOrderStore>::spec_bpe(),
                <u64 as ZOrderStore>::spec_signed(),
            ));
        }
        r
    }

    fn encode(x: u32, y: u32, z: u32) -> (r: u64) {
        proof {
            lemma2_to64();
        }
        let r = <u64 as ZOrderStore>::encode_axes(x as u64, y as u64, z as u64);
        proof {
            lemma_wrap_axis_identity(x as int, 21, false);
            lemma_wrap_axis_identity(y as int, 21, false);
            lemma_wrap_axis_identity(z as int, 21, false);
        }
        r
    }

    fn decode_axis(r: u64, i: usize) -> (e: u32) {
        proof {
            z_facts_u64();
        }
        let g = gather_exec_u64(
            if i == 0 {
                r
            } else if i == 1 {
                r >> 1
            } else {
                r >> 2
            },
        );
        g as u32
    }

    fn axis_wide(r: u64, i: usize) -> (v: i64) {
        proof {
            z_facts_u64();
        }
        <u64 as ZOrderStore>::decode_axis(r, i) as i64
    }

    fn mask_usable(r: u64) -> (m: u64) {
        proof {
            z_facts_u64();
        }
        r & 0x7FFFFFFFFFFFFFFF
    }

    fn add_op(a: u64, b: u64) -> (r: u64) {
        proof {
            z_add_facts_u64();
        }
        let xs = (a | 0x6DB6DB6DB6DB6DB6) + (b & 0x1249249249249249);
        let ys = (a | 0x5B6DB6DB6DB6DB6D) + (b & 0x2492492492492492);
        let zs = (a | 0x36DB6DB6DB6DB6DB) + (b & 0x4924924924924924);
        let r = (xs & 0x1249249249249249) | (ys & 0x2492492492492492) | (zs & 0x4924924924924924);
        proof {
            lemma2_to64();
            assert forall|i: int| 0 <= i < 3 implies <u64 as ZOrderStore>::axis(r, i) == wrap_axis(
                <u64 as ZOrderStore>::axis(a, i) + <u64 as ZOrderStore>::axis(b, i),
                21,
                false,
            ) by {
                lemma_mod_bound(axis_u64(a, i) + axis_u64(b, i), 0x200000);
            }
        }
        r
    }

    fn sub_op(a: u64, b: u64) -> (r: u64) {
        proof {
            z_sub_facts_u64();
        }
        let xs = ((a & 0x1249249249249249) | 0x8000000000000000) - (b & 0x1249249249249249);
        let ys = ((a & 0x2492492492492492) | 0x8000000000000000) - (b & 0x2492492492492492);
        let zs = ((a & 0x4924924924924924) | 0x8000000000000000) - (b & 0x4924924924924924);
        let r = (xs & 0x1249249249249249) | (ys & 0x2492492492492492) | (zs & 0x4924924924924924);
        proof {
            lemma2_to64();
            assert forall|i: int| 0 <= i < 3 implies <u64 as ZOrderStore>::axis(r, i) == wrap_axis(
                <u64 as ZOrderStore>::axis(a, i) - <u64 as ZOrderStore>::axis(b, i),
                21,
                false,
            ) by {
                lemma_mod_add_multiples_vanish(axis_u64(a, i) - axis_u64(b, i), 0x200000);
                lemma_mod_bound(axis_u64(a, i) + 0x200000 - axis_u64(b, i), 0x200000);
            }
        }
        r
    }
}

impl ZOrderStore for i64 {
    type Elem = i32;

    open spec fn spec_bpe() -> int {
        21
    }

    open spec fn spec_signed() -> bool {
        true
    }

    open spec fn elem_int(e: i32) -> int {
        e as int
    }

    open spec fn raw_wf(r: i64) -> bool {
        0 <= r && (r as int) < 0x8000000000000000
    }

    open spec fn axis(r: i64, i: int) -> int {
        let g = axis_u64(r as u64, i) as int;
        if g >= 0x100000 {
            g - 0x200000
        } else {
            g
        }
    }

    proof fn lemma_store_props() {
        lemma2_to64();
    }

    proof fn lemma_axis_range(r: i64, i: int) {
        z_facts_u64();
        z_cast_facts_u64();
        lemma2_to64();
    }

    proof fn lemma_encode_injective(a: i64, b: i64) {
        z_facts_u64();
        z_cast_facts_u64();
        assert((a as u64) as int == a as int && (b as u64) as int == b as int);
        let au = a as u64;
        let bu = b as u64;
        assert(axis_u64(au, 0) == axis_u64(bu, 0) && axis_u64(au, 1) == axis_u64(bu, 1)
            && axis_u64(au, 2) == axis_u64(bu, 2));
        assert(enc_u64(gather_u64(au), gather_u64(au >> 1), gather_u64(au >> 2)) == au);
        assert(enc_u64(gather_u64(bu), gather_u64(bu >> 1), gather_u64(bu >> 2)) == bu);
        assert(au == bu);
    }

    fn bits_per_element() -> usize {
        21
    }

    fn is_signed() -> bool {
        true
    }

    fn element_min() -> i32 {
        proof {
            lemma2_to64();
        }
        -0x100000
    }

    fn element_max() -> i32 {
        proof {
            lemma2_to64();
        }
        0xFFFFF
    }

    fn elem_le(a: i32, b: i32) -> bool {
        a <= b
    }

    fn encode_axes(x: u64, y: u64, z: u64) -> (r: i64) {
        proof {
            lemma2_to64();
        }
        let ru = <u64 as ZOrderStore>::encode_axes(x, y, z);
        proof {
            z_cast_facts_u64();
            assert(pow2(21) == 0x200000) by {
                lemma2_to64();
            }
            lemma_small_mod(x as nat, 0x200000);
            lemma_small_mod(y as nat, 0x200000);
            lemma_small_mod(z as nat, 0x200000);
        }
        ru as i64
    }

    fn encode(x: i32, y: i32, z: i32) -> (r: i64) {
        proof {
            lemma2_to64();
        }
        let xr: u64 = if x >= 0 {
            x as u64
        } else {
            (x as i64 + 0x200000) as u64
        };
        let yr: u64 = if y >= 0 {
            y as u64
        } else {
            (y as i64 + 0x200000) as u64
        };
        let zr: u64 = if z >= 0 {
            z as u64
        } else {
            (z as i64 + 0x200000) as u64
        };
        let r = <i64 as ZOrderStore>::encode_axes(xr, yr, zr);
        proof {
            lemma_wrap_axis_identity(x as int, 21, true);
            lemma_wrap_axis_identity(y as int, 21, true);
            lemma_wrap_axis_identity(z as int, 21, true);
            if x < 0 {
                lemma_mod_add_multiples_vanish(x as int, 0x200000);
            }
            if y < 0 {
                lemma_mod_add_multiples_vanish(y as int, 0x200000);
            }
            if z < 0 {
                lemma_mod_add_multiples_vanish(z as int, 0x200000);
            }
            lemma_wrap_axis_congruent(xr as int, x as int, 21, true);
            lemma_wrap_axis_congruent(yr as int, y as int, 21, true);
            lemma_wrap_axis_congruent(zr as int, z as int, 21, true);
        }
        r
    }

    fn decode_axis(r: i64, i: usize) -> (e: i32) {
        proof {
            z_facts_u64();
            z_cast_facts_u64();
        }
        let ru = r as u64;
        let g = gather_exec_u64(
            if i == 0 {
                ru
            } else if i == 1 {
                ru >> 1
            } else {
                ru >> 2
            },
        );
        if g >= 0x100000 {
            ((g as i64) - 0x200000) as i32
        } else {
            g as i32
        }
    }

    fn axis_wide(r: i64, i: usize) -> (v: i64) {
        proof {
            z_facts_u64();
        }
        <i64 as ZOrderStore>::decode_axis(r, i) as i64
    }

    fn mask_usable(r: i64) -> (m: i64) {
        proof {
            z_cast_facts_u64();
            z_facts_u64();
        }
        r & 0x7FFFFFFFFFFFFFFF
    }

    fn add_op(a: i64, b: i64) -> (r: i64) {
        proof {
            z_cast_facts_u64();
        }
        let ru = <u64 as ZOrderStore>::add_op(a as u64, b as u64);
        proof {
            lemma2_to64();
            assert forall|i: int| 0 <= i < 3 implies <i64 as ZOrderStore>::axis(ru as i64, i)
                == wrap_axis(
                <i64 as ZOrderStore>::axis(a, i) + <i64 as ZOrderStore>::axis(b, i),
                21,
                true,
            ) by {
                let ga = <u64 as ZOrderStore>::axis(a as u64, i);
                let gb = <u64 as ZOrderStore>::axis(b as u64, i);
                let sa = <i64 as ZOrderStore>::axis(a, i);
                let sb = <i64 as ZOrderStore>::axis(b, i);
                lemma_mod_add_multiples_vanish(sa + gb, 0x200000);
                lemma_mod_add_multiples_vanish(sa + sb, 0x200000);
                lemma_wrap_axis_congruent(ga + gb, sa + sb, 21, true);
                lemma_mod_bound(ga + gb, 0x200000);
                lemma_small_mod(((ga + gb) % 0x200000) as nat, 0x200000);
                lemma_wrap_axis_congruent(
                    <u64 as ZOrderStore>::axis(ru, i),
                    ga + gb,
                    21,
                    true,
                );
            }
        }
        ru as i64
    }

    fn sub_op(a: i64, b: i64) -> (r: i64) {
        proof {
            z_cast_facts_u64();
        }
        let ru = <u64 as ZOrderStore>::sub_op(a as u64, b as u64);
        proof {
            lemma2_to64();
            assert forall|i: int| 0 <= i < 3 implies <i64 as ZOrderStore>::axis(ru as i64, i)
                == wrap_axis(
                <i64 as ZOrderStore>::axis(a, i) - <i64 as ZOrderStore>::axis(b, i),
                21,
                true,
            ) by {
                let ga = <u64 as ZOrderStore>::axis(a as u64, i);
                let gb = <u64 as ZOrderStore>::axis(b as u64, i);
                let sa = <i64 as ZOrderStore>::axis(a, i);
                let sb = <i64 as ZOrderStore>::axis(b, i);
                lemma_mod_add_multiples_vanish(sa - gb, 0x200000);
                lemma_mod_add_multiples_vanish(sa - sb, 0x200000);
                lemma_wrap_axis_congruent(ga - gb, sa - sb, 21, true);
                lemma_mod_bound(ga - gb, 0x200000);
                lemma_small_mod(((ga - gb) % 0x200000) as nat, 0x200000);
                lemma_wrap_axis_congruent(
                    <u64 as ZOrderStore>::axis(ru, i),
                    ga - gb,
                    21,
                    true,
                );
            }
        }
        ru as i64
    }
}

} // verus!

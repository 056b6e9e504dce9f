use bloxel::z_order::ZOrder;
use bloxel::z_order_store::ZOrderStore;

#[test]
fn valid_ranges() {
    assert_eq!(<u16 as ZOrderStore>::bits_per_element(), 5);
    assert_eq!(3 * <u16 as ZOrderStore>::bits_per_element(), 15);
    assert_eq!(<u16 as ZOrderStore>::element_min(), 0);
    assert_eq!(<u16 as ZOrderStore>::element_max(), 31);

    assert_eq!(<u32 as ZOrderStore>::bits_per_element(), 10);
    assert_eq!(3 * <u32 as ZOrderStore>::bits_per_element(), 30);
    assert_eq!(<u32 as ZOrderStore>::element_min(), 0);
    assert_eq!(<u32 as ZOrderStore>::element_max(), 1023);

    assert_eq!(<u64 as ZOrderStore>::bits_per_element(), 21);
    assert_eq!(3 * <u64 as ZOrderStore>::bits_per_element(), 63);
    assert_eq!(<u64 as ZOrderStore>::element_min(), 0);
    assert_eq!(<u64 as ZOrderStore>::element_max(), 2097151);

    assert_eq!(<i16 as ZOrderStore>::bits_per_element(), 5);
    assert_eq!(3 * <i16 as ZOrderStore>::bits_per_element(), 15);
    assert_eq!(<i16 as ZOrderStore>::element_min(), -16);
    assert_eq!(<i16 as ZOrderStore>::element_max(), 15);

    assert_eq!(<i32 as ZOrderStore>::bits_per_element(), 10);
    assert_eq!(3 * <i32 as ZOrderStore>::bits_per_element(), 30);
    assert_eq!(<i32 as ZOrderStore>::element_min(), -512);
    assert_eq!(<i32 as ZOrderStore>::element_max(), 511);

    assert_eq!(<i64 as ZOrderStore>::bits_per_element(), 21);
    assert_eq!(3 * <i64 as ZOrderStore>::bits_per_element(), 63);
    assert_eq!(<i64 as ZOrderStore>::element_min(), -1048576);
    assert_eq!(<i64 as ZOrderStore>::element_max(), 1048575);
}

#[test]
fn decode_and_raw() {
    let o = ZOrder::<i16>::new(6, -2i8.pow(4), 15).unwrap();
    assert_eq!(o.into(), (6, -16, 15));

    //                    -16 + 8 + 4 + 2 + 1
    //                    -------------------
    //                x =   0   0   1   1   0
    //                y =  1   0   0   0   0
    //                z = 0   1   1   1   1
    assert_eq!(o.raw(), 0b010_100_101_101_100);

    let o = ZOrder::<u64>::new(0, 10, 2u32.pow(21) - 1).unwrap();
    assert_eq!(o.into(), (0, 10, 2u32.pow(21) - 1));
    assert_eq!(
        o.raw(),
        0b100_100_100_100_100_100_100_100_100_100_100_100_100_100_100_100_100_110_100_110_100
    );
}

#[test]
fn out_of_range_returns_none() {
    assert_eq!(ZOrder::<u16>::new(0, 0, 2u8.pow(5)), None);
    assert_eq!(ZOrder::<u32>::new(0, 0, 2u16.pow(10)), None);
    assert_eq!(ZOrder::<u64>::new(0, 0, 2u32.pow(21)), None);

    assert_eq!(ZOrder::<i16>::new(0, 0, -2i8.pow(4) - 1), None);
    assert_eq!(ZOrder::<i32>::new(0, 0, -2i16.pow(9) - 1), None);
    assert_eq!(ZOrder::<i64>::new(0, 0, -2i32.pow(20) - 1), None);

    assert_eq!(ZOrder::<i16>::new(0, 0, 2i8.pow(4)), None);
    assert_eq!(ZOrder::<i32>::new(0, 0, 2i16.pow(9)), None);
    assert_eq!(ZOrder::<i64>::new(0, 0, 2i32.pow(20)), None);
}

#[test]
fn bitwise_shifting() {
    let zero = ZOrder::<i32>::new(0, 0, 0).unwrap();
    assert_eq!(zero.shr(3), zero.shl(0));

    let pos123 = ZOrder::<i32>::new(1, 2, 3).unwrap();
    assert_eq!(pos123.shl(2), ZOrder::new(4, 8, 12).unwrap());

    let neg123 = ZOrder::<i32>::new(-1, -2, -3).unwrap();
    assert_eq!(neg123.shl(2), ZOrder::new(-4, -8, -12).unwrap());
    assert_eq!(ZOrder::new(-4, -8, -12).unwrap().shr(2), neg123);
}

#[test]
fn roundtrip_all_u8_axes() {
    // Every valid coordinate triple of the smallest store comes back intact.
    for x in 0..4u8 {
        for y in 0..4u8 {
            for z in 0..4u8 {
                let o = ZOrder::<u8>::new(x, y, z).unwrap();
                assert_eq!(o.into(), (x, y, z));
            }
        }
    }
    for x in -2..2i8 {
        for y in -2..2i8 {
            for z in -2..2i8 {
                let o = ZOrder::<i8>::new(x, y, z).unwrap();
                assert_eq!(o.into(), (x, y, z));
            }
        }
    }
}

#[test]
fn axiswise_add_sub() {
    let a = ZOrder::<i64>::new(13, -8, 1).unwrap();
    let b = ZOrder::<i64>::new(-3, 20, 100).unwrap();
    assert_eq!(a.add(b).into(), (10, 12, 101));
    assert_eq!(a.sub(b).into(), (16, -28, -99));
    let u = ZOrder::<u16>::new(30, 1, 0).unwrap();
    let v = ZOrder::<u16>::new(1, 2, 3).unwrap();
    assert_eq!(u.add(v).into(), (31, 3, 3));
    // axes wrap independently: 31 + 1 wraps to 0 without touching y or z
    assert_eq!(u.add(v).add(v).into(), (0, 5, 6));
    assert_eq!(v.sub(u).into(), (3, 1, 3));
}

#[test]
fn increments_and_decrements() {
    let o = ZOrder::<i32>::new(5, -6, 0).unwrap();
    assert_eq!(o.inc_x().into(), (6, -6, 0));
    assert_eq!(o.inc_y().into(), (5, -5, 0));
    assert_eq!(o.inc_z().into(), (5, -6, 1));
    assert_eq!(o.dec_x().into(), (4, -6, 0));
    assert_eq!(o.dec_y().into(), (5, -7, 0));
    assert_eq!(o.dec_z().into(), (5, -6, -1));
}

#[test]
fn from_raw_masks_extra_bits() {
    let o = ZOrder::<i32>::from_raw(0b111);
    assert_eq!(o.into(), (1, 1, 1));
    let p = ZOrder::<i32>::new(13, -8, 1).unwrap();
    assert_eq!(ZOrder::<i32>::from_raw(p.raw()), p);
}

#[test]
fn decode_single_axes() {
    let o = ZOrder::<i32>::new(13, -8, 1).unwrap();
    assert_eq!(o.x(), 13);
    assert_eq!(o.y(), -8);
    assert_eq!(o.decode(2), 1);
}

use hakmem::hilbert::Hilbert2;
use hakmem::curve::{Curve2, Curve3};
use hakmem::lanes::{U8x16, U8x8};
use hakmem::dilated::{Dilated, Morton2, Morton3};

#[test]
fn morton2_doc_example() {
    let m = Morton2::encode(3, 5);
    assert_eq!(m.decode(), (3, 5));
    assert_eq!(m.step_x().decode(), (4, 5));
    assert_eq!(m.step_y().decode(), (3, 6));
    // x in the even bits, y in the odd ones.
    assert_eq!(m.code(), 0b10_0111);
    assert_eq!(Morton2::from_code(0b10_0111).decode(), (3, 5));
}

#[test]
fn morton2_roundtrip_and_axes() {
    let mut s = 0x2545_F491_4F6C_DD1Du64;
    for _ in 0..1000 {
        s ^= s << 13;
        s ^= s >> 7;
        s ^= s << 17;
        let (x, y) = (s & 0xFFFF_FFFF, s >> 32);
        let m = Morton2::encode(x, y);
        assert_eq!(m.decode(), (x, y));
        assert_eq!(m.x().into_int(), x);
        assert_eq!(m.y().into_int(), y);
        assert_eq!(m.with_x(Dilated::<2>::from_int(7)).decode(), (7, y));
        assert_eq!(m.with_y(Dilated::<2>::from_int(9)).decode(), (x, 9));
        let mut code = 0u64;
        for i in 0..32 {
            code |= (x >> i & 1) << (2 * i) | (y >> i & 1) << (2 * i + 1);
        }
        assert_eq!(m.code(), code);
    }
    // Steps wrap inside their axis.
    assert_eq!(Morton2::encode(u32::MAX as u64, 5).step_x().decode(), (0, 5));
}

#[test]
fn morton3_doc_example() {
    let m = Morton3::encode(3, 5, 6);
    assert_eq!(m.decode(), (3, 5, 6));
    assert_eq!(Morton3::from_code(m.code()).decode(), (3, 5, 6));
    // x at bits 0, 3, 6; y at 1, 4, 7; z at 2, 5, 8.
    assert_eq!(Morton3::encode(1, 0, 0).code(), 1);
    assert_eq!(Morton3::encode(0, 1, 0).code(), 2);
    assert_eq!(Morton3::encode(0, 0, 1).code(), 4);
    assert_eq!(Morton3::encode(2, 0, 0).code(), 8);
}

#[test]
fn morton2_columns() {
    let xs = [0u64, 1, 2, 3, 1000];
    let ys = [0u64, 1, 5, 7, 77];
    let mut codes = [0u64; 5];
    Morton2::encode_columns(&xs, &ys, &mut codes);
    for i in 0..5 {
        assert_eq!(codes[i], Morton2::encode(xs[i], ys[i]).code());
    }
    let mut xs2 = [0u64; 5];
    let mut ys2 = [0u64; 5];
    Morton2::decode_columns(&codes, &mut xs2, &mut ys2);
    assert_eq!(xs2, xs);
    assert_eq!(ys2, ys);
}

#[test]
fn dilated_arithmetic() {
    assert_eq!(Dilated::<2>::mask(), 0x5555_5555_5555_5555);
    assert_eq!(Dilated::<3>::mask(), 0x9249_2492_4924_9249);
    assert_eq!(Dilated::<1>::mask(), u64::MAX);
    assert_eq!(Dilated::<2>::width(), 32);
    assert_eq!(Dilated::<3>::width(), 22);
    let a = Dilated::<2>::from_int(5);
    assert_eq!(a.bits(), 0b10001);
    assert_eq!(a.into_int(), 5);
    assert_eq!(a.incr().into_int(), 6);
    assert_eq!(a.decr().into_int(), 4);
    assert_eq!(a.wrapping_add(Dilated::<2>::from_int(11)).into_int(), 16);
    assert_eq!(Dilated::<2>::from_int(0).decr().into_int(), u32::MAX as u64);
    assert_eq!(Dilated::<2>::from_bits(0b0100_0101).into_int(), 0b1011);
    for x in 0..500u64 {
        let d = Dilated::<3>::from_int(x);
        assert_eq!(d.into_int(), x);
        assert_eq!(d.incr().into_int(), x + 1);
        assert_eq!(d.incr().decr().into_int(), x);
        assert_eq!(d.wrapping_add(Dilated::<3>::from_int(3 * x)).into_int(), 4 * x);
    }
}

fn sorted_keys<C: Curve2>(points: &[(u64, u64)]) -> Vec<u64> {
    let mut keys: Vec<u64> = points.iter().map(|&(x, y)| C::encode(x, y).key()).collect();
    keys.sort_unstable();
    keys
}

#[test]
fn curve2_interface_round_trips_on_both_curves() {
    let points = [(0u64, 0u64), (1, 0), (0, 1), (5, 9), (0xffff_ffff, 3)];
    for &(x, y) in &points {
        assert_eq!(<Morton2 as Curve2>::encode(x, y).decode(), (x, y));
        assert_eq!(<Hilbert2 as Curve2>::encode(x, y).decode(), (x, y));
        let k = <Hilbert2 as Curve2>::encode(x, y).key();
        assert_eq!(<Hilbert2 as Curve2>::from_key(k).key(), k);
    }
    // The interface changes the curve by changing a type.
    assert_eq!(sorted_keys::<Morton2>(&[(1, 0), (0, 1), (0, 0)]), vec![0, 1, 2]);
    assert_eq!(sorted_keys::<Hilbert2>(&[(1, 0), (0, 1), (0, 0)]).len(), 3);
}

#[test]
fn curve3_interface_round_trips() {
    for &(x, y, z) in &[(0u64, 0u64, 0u64), (1, 2, 3), (0x1f_ffff, 0, 7)] {
        let m = <Morton3 as Curve3>::encode(x, y, z);
        assert_eq!(Curve3::decode(m), (x, y, z));
        assert_eq!(<Morton3 as Curve3>::from_key(m.key()).key(), m.key());
    }
}

#[test]
fn lane_carriers_hold_their_words() {
    assert_eq!(U8x8::new(0x0102_0304_0506_0708).bits(), 0x0102_0304_0506_0708);
    let v = U8x16::from_halves(1, u64::MAX);
    assert_eq!(v.halves(), (1, u64::MAX));
}

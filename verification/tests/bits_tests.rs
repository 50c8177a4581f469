use logic_core::bits::Bits;
use logic_core::bits::LV;

#[test]
fn test_lv_and() {
    assert!(LV::H.and(&LV::L) == LV::L);
    assert!(LV::L.and(&LV::H) == LV::L);
    assert!(LV::L.and(&LV::X) == LV::L);
    assert!(LV::H.and(&LV::H) == LV::H);
    assert!(LV::H.and(&LV::Z) == LV::X);
    assert!(LV::H.and(&LV::X) == LV::X);
}

#[test]
fn test_lv_or() {
    assert!(LV::L.or(&LV::L) == LV::L);
    assert!(LV::H.or(&LV::L) == LV::H);
    assert!(LV::L.or(&LV::H) == LV::H);
    assert!(LV::Z.or(&LV::H) == LV::H);
    assert!(LV::Z.or(&LV::L) == LV::X);
    assert!(LV::X.or(&LV::L) == LV::X);
}

#[test]
fn test_lv_not() {
    assert!(LV::H.not() == LV::L);
    assert!(LV::L.not() == LV::H);
    assert!(LV::Z.not() == LV::X);
    assert!(LV::X.not() == LV::X);
}

#[test]
fn test_bits_subrange() {
    let tmp = Bits::new(8);
    let _ = tmp;
}

#[test]
fn test_lv_and_commutative_table() {
    let levels = [LV::H, LV::L, LV::X, LV::Z];
    for a in levels.iter() {
        for b in levels.iter() {
            assert!(a.and(b) == b.and(a));
            assert!(a.or(b) == b.or(a));
        }
    }
}

#[test]
fn test_lv_zeros() {
    let levels = [LV::H, LV::L, LV::X, LV::Z];
    for a in levels.iter() {
        assert!(LV::L.and(a) == LV::L);
        assert!(a.and(&LV::L) == LV::L);
        assert!(LV::H.or(a) == LV::H);
        assert!(a.or(&LV::H) == LV::H);
    }
}

#[test]
fn test_bits_new_is_all_z() {
    let b = Bits::new(4);
    assert_eq!(b.len(), 4);
    for i in 0..4 {
        assert!(b.get(i) == LV::Z);
    }
}

#[test]
fn test_bits_set_get() {
    let mut b = Bits::new(3);
    b.set(0, LV::H);
    b.set(1, LV::L);
    b.set(2, LV::X);
    assert!(b.get(0) == LV::H);
    assert!(b.get(1) == LV::L);
    assert!(b.get(2) == LV::X);
}

#[test]
fn test_bits_and_or_not_pointwise() {
    let mut a = Bits::new(4);
    a.set(0, LV::H);
    a.set(1, LV::L);
    a.set(2, LV::X);
    a.set(3, LV::Z);
    let mut b = Bits::new(4);
    b.set(0, LV::H);
    b.set(1, LV::H);
    b.set(2, LV::L);
    b.set(3, LV::H);
    let c = a.and(&b);
    assert!(c.get(0) == LV::H.and(&LV::H));
    assert!(c.get(1) == LV::L.and(&LV::H));
    assert!(c.get(2) == LV::X.and(&LV::L));
    assert!(c.get(3) == LV::Z.and(&LV::H));
    let d = a.or(&b);
    assert!(d.get(0) == LV::H.or(&LV::H));
    assert!(d.get(1) == LV::L.or(&LV::H));
    assert!(d.get(2) == LV::X.or(&LV::L));
    assert!(d.get(3) == LV::Z.or(&LV::H));
    let e = a.not();
    assert!(e.get(0) == LV::L);
    assert!(e.get(1) == LV::H);
    assert!(e.get(2) == LV::X);
    assert!(e.get(3) == LV::X);
}

#[test]
fn test_bits_equality_is_structural() {
    let mut a = Bits::new(2);
    a.set(0, LV::H);
    let mut b = Bits::new(2);
    b.set(0, LV::H);
    assert!(a == b);
    b.set(1, LV::L);
    assert!(a != b);
    let c = Bits::new(3);
    assert!(a != c);
}

#[test]
fn test_bits_get_range_bounds() {
    let b = Bits::new(8);
    assert!(b.get_range(0, 8).is_ok());
    assert!(b.get_range(7, 8).is_ok());
    assert!(b.get_range(3, 3).is_ok());
    assert!(b.get_range(8, 8).is_err());
    assert!(b.get_range(0, 9).is_err());
    assert!(b.get_range(5, 4).is_err());
    let r = b.get_range(2, 6).unwrap();
    assert_eq!(r.len(), 4);
}

#[test]
fn test_bits_get_range_values() {
    let mut b = Bits::new(4);
    b.set(0, LV::H);
    b.set(1, LV::L);
    b.set(2, LV::X);
    b.set(3, LV::Z);
    let r = b.get_range(1, 3).unwrap();
    assert_eq!(r.len(), 2);
    assert!(r.get(0) == LV::L);
    assert!(r.get(1) == LV::X);
}

#[test]
fn test_lv_display_chars() {
    assert_eq!(LV::H.display_char(), '1');
    assert_eq!(LV::L.display_char(), '0');
    assert_eq!(LV::X.display_char(), 'X');
    assert_eq!(LV::Z.display_char(), 'Z');
}

#[test]
fn test_bits_display_format() {
    let mut b = Bits::new(4);
    b.set(0, LV::H);
    b.set(1, LV::L);
    b.set(2, LV::X);
    b.set(3, LV::Z);
    assert_eq!(b.display_string(), "10XZ");
    assert_eq!(Bits::new(3).display_string(), "ZZZ");
}

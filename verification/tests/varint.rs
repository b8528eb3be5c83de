use stream_reassembly::varint::VarInt;
use stream_reassembly::varint::VarIntError;
use stream_reassembly::varint::MAX_VARINT_VALUE;

fn v(value: u64) -> VarInt {
    VarInt::new(value).unwrap()
}

#[test]
fn range_is_checked() {
    assert_eq!(VarInt::new(0).unwrap().as_u64(), 0);
    assert_eq!(VarInt::new(MAX_VARINT_VALUE).unwrap(), VarInt::max_value());
    assert_eq!(VarInt::new(MAX_VARINT_VALUE + 1), Err(VarIntError));
    assert_eq!(VarInt::new(u64::MAX), Err(VarIntError));
    assert_eq!(VarInt::zero(), VarInt::default());
    assert_eq!(VarInt::new_unchecked(7).as_u64(), 7);
    assert_eq!(VarIntError.message(), "varint range exceeded");
}

#[test]
fn conversions() {
    assert_eq!(VarInt::from_u8(200), v(200));
    assert_eq!(VarInt::from_u16(60_000), v(60_000));
    assert_eq!(VarInt::from_u32(4_000_000_000), v(4_000_000_000));
    assert_eq!(VarInt::from(1u8), v(1));
    assert_eq!(VarInt::from(2u16), v(2));
    assert_eq!(VarInt::from(3u32), v(3));
    assert_eq!(VarInt::try_from(4usize), Ok(v(4)));
    assert_eq!(VarInt::try_from(5u64), Ok(v(5)));
    assert_eq!(VarInt::try_from(6u128), Ok(v(6)));
    assert_eq!(VarInt::try_from(u64::MAX), Err(VarIntError));
    assert_eq!(VarInt::try_from(usize::MAX), Err(VarIntError));
    assert_eq!(VarInt::try_from(1u128 << 64), Err(VarIntError));
    assert_eq!(VarInt::try_from(MAX_VARINT_VALUE as u128), Ok(VarInt::max_value()));
}

#[test]
fn arithmetic() {
    assert_eq!(v(3).checked_add(v(4)), Some(v(7)));
    assert_eq!(VarInt::max_value().checked_add(v(1)), None);
    assert_eq!(VarInt::max_value().checked_add(v(0)), Some(VarInt::max_value()));
    assert_eq!(v(3).checked_add_usize(4), Some(v(7)));
    assert_eq!(VarInt::max_value().checked_add_usize(1), None);
    assert_eq!(v(3).checked_add_usize(usize::MAX), None);
    assert_eq!(v(7).checked_sub(v(4)), Some(v(3)));
    assert_eq!(v(4).checked_sub(v(7)), None);
    assert_eq!(v(7).saturating_sub(v(4)), v(3));
    assert_eq!(v(4).saturating_sub(v(7)), v(0));
    assert_eq!(v(3) + v(4), v(7));
    assert_eq!(v(3) + 4usize, v(7));
    assert_eq!(v(7) - v(4), v(3));
    let mut sum = v(1);
    sum += v(2);
    sum += 3usize;
    assert_eq!(sum, v(6));
}

#[test]
fn what_was_added_can_be_taken_away() {
    for a in [0u64, 1, 77, 1 << 40] {
        for b in [0u64, 5, 1 << 41] {
            assert_eq!(v(a) + v(b) - v(b), v(a));
        }
    }
}

#[test]
fn comparisons() {
    assert!(v(3) == 3u64);
    assert!(3u64 == v(3));
    assert!(v(3) != 4u64);
    assert!(v(3) < 4u64);
    assert!(2u64 < v(3));
    assert!(v(3) >= 3u64);
    assert!(v(3) < v(4));
    assert!(v(4).max(v(3)) == v(4));
}

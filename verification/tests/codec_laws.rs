use kelk::blockchain::Address;
use kelk::codec::Codec;
use kelk::error::Error;

fn round_trip<T: Codec + PartialEq + core::fmt::Debug>(v: T) {
    let bytes = v.encode();
    assert_eq!(bytes.len(), T::packed_len() as usize);
    let back = T::decode(bytes.as_slice()).unwrap();
    assert_eq!(back, v);
}

#[test]
fn round_trip_unsigned() {
    round_trip(0u8);
    round_trip(255u8);
    round_trip(0xabcdu16);
    round_trip(0xdead_beefu32);
    round_trip(0x0123_4567_89ab_cdefu64);
    round_trip(u64::MAX);
}

#[test]
fn round_trip_signed() {
    round_trip(-1i8);
    round_trip(-2i16);
    round_trip(-123_456i32);
    round_trip(i32::MIN);
    round_trip(-99_999_999_999i64);
    round_trip(i64::MAX);
}

#[test]
fn round_trip_bool() {
    round_trip(true);
    round_trip(false);
}

#[test]
fn round_trip_address() {
    let a = Address { w0: 0x0102030405060708, w1: 0x1112131415161718, w2: 0x21222324, w3: 0x31 };
    round_trip(a);
    let bytes = a.encode();
    assert_eq!(bytes.len(), 21);
    // little-endian, fields in declaration order
    assert_eq!(bytes[0], 0x08);
    assert_eq!(bytes[7], 0x01);
    assert_eq!(bytes[8], 0x18);
    assert_eq!(bytes[20], 0x31);
    let back = Address::from_bytes(bytes.as_slice()).unwrap();
    assert_eq!(back, a);
    assert_eq!(Address::from_bytes(&bytes.as_slice()[..20]), Err(Error::InvalidEncoding));
}

#[test]
fn exact_encodings() {
    assert_eq!(0x0102_0304u32.encode(), vec![0x04, 0x03, 0x02, 0x01]);
    assert_eq!(1i32.encode(), vec![1, 0, 0, 0]);
    assert_eq!((-1i32).encode(), vec![0xff, 0xff, 0xff, 0xff]);
    assert_eq!(true.encode(), vec![1]);
    assert_eq!(false.encode(), vec![0]);
    assert_eq!(0x1122u16.encode(), vec![0x22, 0x11]);
}

#[test]
fn bool_rejects_other_bytes() {
    assert_eq!(bool::decode(&[2]), Err(Error::InvalidEncoding));
    assert_eq!(bool::decode(&[0xff]), Err(Error::InvalidEncoding));
    assert_eq!(bool::decode(&[0]), Ok(false));
    assert_eq!(bool::decode(&[1]), Ok(true));
}

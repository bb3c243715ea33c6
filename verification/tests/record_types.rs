use srec::{Address, Address16, Address24, Address32, Count16, Count24};

#[test]
fn address16_to_be_bytes() {
    let a = Address16(0x1234);

    let b = a.to_be_bytes();

    assert_eq!(b, [0x12, 0x34]);
}

#[test]
fn address16_ref_to_be_bytes() {
    let a = &Address16(0x1234);

    let b = a.to_be_bytes();

    assert_eq!(b, [0x12, 0x34]);
}

#[test]
fn address16_into_u32() {
    let a = Address16(0x1234);

    let b: u32 = a.into();

    assert_eq!(b, 0x1234u32);
}

#[test]
fn address16_ref_into_u32() {
    let a = &Address16(0x1234);

    let b: u32 = a.into();

    assert_eq!(b, 0x1234u32);
}

#[test]
fn address24_to_be_bytes() {
    let a = Address24(0x123456);

    let b = a.to_be_bytes();

    assert_eq!(b, [0x12, 0x34, 0x56]);
}

#[test]
fn address24_ref_to_be_bytes() {
    let a = &Address24(0x123456);

    let b = a.to_be_bytes();

    assert_eq!(b, [0x12, 0x34, 0x56]);
}

#[test]
fn address24_into_u32() {
    let a = Address24(0x123456);

    let b: u32 = a.into();

    assert_eq!(b, 0x123456u32);
}

#[test]
fn address24_ref_into_u32() {
    let a = &Address24(0x123456);

    let b: u32 = a.into();

    assert_eq!(b, 0x123456u32);
}

#[test]
fn address32_to_be_bytes() {
    let a = Address32(0x12345678);

    let b = a.to_be_bytes();

    assert_eq!(b, [0x12, 0x34, 0x56, 0x78]);
}

#[test]
fn address32_ref_to_be_bytes() {
    let a = &Address32(0x12345678);

    let b = a.to_be_bytes();

    assert_eq!(b, [0x12, 0x34, 0x56, 0x78]);
}

#[test]
fn address32_into_u32() {
    let a = Address32(0x12345678);

    let b: u32 = a.into();

    assert_eq!(b, 0x12345678u32);
}

#[test]
fn address32_ref_into_u32() {
    let a = &Address32(0x12345678);

    let b: u32 = a.into();

    assert_eq!(b, 0x12345678u32);
}

#[test]
fn count16_into_u32() {
    let a = Count16(0x1234);

    let b: u32 = a.into();

    assert_eq!(b, 0x1234);
}

#[test]
fn count16_ref_into_u32() {
    let a = &Count16(0x1234);

    let b: u32 = a.into();

    assert_eq!(b, 0x1234);
}

#[test]
fn count24_into_u32() {
    let a = Count24(0x123456);

    let b: u32 = a.into();

    assert_eq!(b, 0x123456);
}

#[test]
fn count24_ref_into_u32() {
    let a = &Count24(0x123456);

    let b: u32 = a.into();

    assert_eq!(b, 0x123456);
}

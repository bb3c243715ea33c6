use srec::generate::{image_records, AddressFormat};
use srec::image::Image;
use srec::{Address16, Address24, Address32, Count16, Count24, Data, Record};

#[test]
fn generate_encode_s0_empty_string_returns_empty_record() {
    let r = Record::S0("".to_string());

    let s = r.encode();

    assert_eq!(s, "S0030000FC");
}

#[test]
fn generate_encode_s0_simple_string_returns_correct_record() {
    let r = Record::S0("HDR".to_string());

    let s = r.encode();

    assert_eq!(s, "S00600004844521B");
}

#[test]
fn generate_encode_s1_empty_returns_empty_record() {
    let r = Record::S1(Data {
        address: Address16(0x1234),
        data: vec![],
    });

    let s = r.encode();

    assert_eq!(s, "S1031234B6");
}

#[test]
fn generate_encode_s1_with_data_returns_correct_record() {
    let r = Record::S1(Data {
        address: Address16(0x1234),
        data: vec![0x00, 0x01, 0x02, 0x03],
    });

    let s = r.encode();

    assert_eq!(s, "S107123400010203AC");
}

#[test]
fn generate_encode_s2_empty_returns_empty_record() {
    let r = Record::S2(Data {
        address: Address24(0x123456),
        data: vec![],
    });

    let s = r.encode();

    assert_eq!(s, "S2041234565F");
}

#[test]
fn generate_encode_s2_with_data_returns_correct_record() {
    let r = Record::S2(Data {
        address: Address24(0x123456),
        data: vec![0x00, 0x01, 0x02, 0x03],
    });

    let s = r.encode();

    assert_eq!(s, "S2081234560001020355");
}

#[test]
fn generate_encode_s3_empty_returns_empty_record() {
    let r = Record::S3(Data {
        address: Address32(0x12345678),
        data: vec![],
    });

    let s = r.encode();

    assert_eq!(s, "S30512345678E6");
}

#[test]
fn generate_encode_s3_with_data_returns_correct_record() {
    let r = Record::S3(Data {
        address: Address32(0x12345678),
        data: vec![0x00, 0x01, 0x02, 0x03],
    });

    let s = r.encode();

    assert_eq!(s, "S3091234567800010203DC");
}

#[test]
fn generate_encode_s5_returns_correct_record() {
    let r = Record::S5(Count16(0x1234));

    let s = r.encode();

    assert_eq!(s, "S5031234B6");
}

#[test]
fn generate_encode_s6_returns_correct_record() {
    let r = Record::S6(Count24(0x123456));

    let s = r.encode();

    assert_eq!(s, "S6041234565F");
}

#[test]
fn generate_encode_s7_returns_correct_record() {
    let r = Record::S7(Address32(0x12345678));

    let s = r.encode();

    assert_eq!(s, "S70512345678E6");
}

#[test]
fn generate_encode_s8_returns_correct_record() {
    let r = Record::S8(Address24(0x123456));

    let s = r.encode();

    assert_eq!(s, "S8041234565F");
}

#[test]
fn generate_encode_s9_returns_correct_record() {
    let r = Record::S9(Address16(0x1234));

    let s = r.encode();

    assert_eq!(s, "S9031234B6");
}

#[test]
fn image_records_empty_image_returns_empty_iterator() {
    let i = Image::new();

    let rs = image_records(&i, AddressFormat::Address32);

    assert!(rs.is_empty());
}

#[test]
fn image_records_address_format_address_16_provided_16_uses_correct_record() {
    let mut i = Image::new();
    i.add_data(0x00001234, &vec![0x11, 0x22, 0x33, 0x44]);

    let rs = image_records(&i, AddressFormat::Address16);

    assert_eq!(
        rs[0],
        Record::S1(Data {
            address: Address16(0x1234),
            data: vec![0x11, 0x22, 0x33, 0x44],
        })
    );
    assert_eq!(rs.len(), 1);
}

#[test]
fn image_records_address_format_address_24_provided_16_uses_correct_record() {
    let mut i = Image::new();
    i.add_data(0x00001234, &vec![0x11, 0x22, 0x33, 0x44]);

    let rs = image_records(&i, AddressFormat::Address24);

    assert_eq!(
        rs[0],
        Record::S2(Data {
            address: Address24(0x1234),
            data: vec![0x11, 0x22, 0x33, 0x44],
        })
    );
    assert_eq!(rs.len(), 1);
}

#[test]
fn image_records_address_format_address_24_provided_24_uses_correct_record() {
    let mut i = Image::new();
    i.add_data(0x123456, &vec![0x11, 0x22, 0x33, 0x44]);

    let rs = image_records(&i, AddressFormat::Address24);

    assert_eq!(
        rs[0],
        Record::S2(Data {
            address: Address24(0x123456),
            data: vec![0x11, 0x22, 0x33, 0x44],
        })
    );
    assert_eq!(rs.len(), 1);
}

#[test]
fn image_records_address_format_address_32_provided_16_uses_correct_record() {
    let mut i = Image::new();
    i.add_data(0x00001234, &vec![0x11, 0x22, 0x33, 0x44]);

    let rs = image_records(&i, AddressFormat::Address32);

    assert_eq!(
        rs[0],
        Record::S3(Data {
            address: Address32(0x1234),
            data: vec![0x11, 0x22, 0x33, 0x44],
        })
    );
    assert_eq!(rs.len(), 1);
}

#[test]
fn image_records_address_format_address_32_provided_24_uses_correct_record() {
    let mut i = Image::new();
    i.add_data(0x123456, &vec![0x11, 0x22, 0x33, 0x44]);

    let rs = image_records(&i, AddressFormat::Address32);

    assert_eq!(
        rs[0],
        Record::S3(Data {
            address: Address32(0x123456),
            data: vec![0x11, 0x22, 0x33, 0x44],
        })
    );
    assert_eq!(rs.len(), 1);
}

#[test]
fn image_records_address_format_address_32_provided_32_uses_correct_record() {
    let mut i = Image::new();
    i.add_data(0x12345678, &vec![0x11, 0x22, 0x33, 0x44]);

    let rs = image_records(&i, AddressFormat::Address32);

    assert_eq!(
        rs[0],
        Record::S3(Data {
            address: Address32(0x12345678),
            data: vec![0x11, 0x22, 0x33, 0x44],
        })
    );
    assert_eq!(rs.len(), 1);
}

#[test]
fn image_records_address_format_smallest_required_16_uses_correct_record() {
    let mut i = Image::new();
    i.add_data(0x00001234, &vec![0x11, 0x22, 0x33, 0x44]);

    let rs = image_records(&i, AddressFormat::SmallestRequired);

    assert_eq!(
        rs[0],
        Record::S1(Data {
            address: Address16(0x1234),
            data: vec![0x11, 0x22, 0x33, 0x44],
        })
    );
    assert_eq!(rs.len(), 1);
}

#[test]
fn image_records_address_format_smallest_required_24_uses_correct_record() {
    let mut i = Image::new();
    i.add_data(0x00001234, &vec![0x11, 0x22, 0x33, 0x44]);
    i.add_data(0x00123456, &vec![0x11, 0x22, 0x33, 0x44]);

    let rs = image_records(&i, AddressFormat::SmallestRequired);

    assert_eq!(
        rs[0],
        Record::S2(Data {
            address: Address24(0x1234),
            data: vec![0x11, 0x22, 0x33, 0x44],
        })
    );
    assert_eq!(
        rs[1],
        Record::S2(Data {
            address: Address24(0x123456),
            data: vec![0x11, 0x22, 0x33, 0x44],
        })
    );
    assert_eq!(rs.len(), 2);
}

#[test]
fn image_records_address_format_smallest_required_32_uses_correct_record() {
    let mut i = Image::new();
    i.add_data(0x00001234, &vec![0x11, 0x22, 0x33, 0x44]);
    i.add_data(0x00123456, &vec![0x11, 0x22, 0x33, 0x44]);
    i.add_data(0x12345678, &vec![0x11, 0x22, 0x33, 0x44]);

    let rs = image_records(&i, AddressFormat::SmallestRequired);

    assert_eq!(
        rs[0],
        Record::S3(Data {
            address: Address32(0x1234),
            data: vec![0x11, 0x22, 0x33, 0x44],
        })
    );
    assert_eq!(
        rs[1],
        Record::S3(Data {
            address: Address32(0x123456),
            data: vec![0x11, 0x22, 0x33, 0x44],
        })
    );
    assert_eq!(
        rs[2],
        Record::S3(Data {
            address: Address32(0x12345678),
            data: vec![0x11, 0x22, 0x33, 0x44],
        })
    );
    assert_eq!(rs.len(), 3);
}

#[test]
fn image_records_splits_long_blocks_into_chunks_of_thirty_two_bytes() {
    let mut i = Image::new();
    let mut bytes: Vec<u8> = Vec::new();
    let mut k: usize = 0;
    while k < 70 {
        bytes.push(k as u8);
        k += 1;
    }
    i.add_data(0x1000, &bytes);

    let rs = image_records(&i, AddressFormat::Address16);

    assert_eq!(rs.len(), 3);
    assert_eq!(
        rs[0],
        Record::S1(Data {
            address: Address16(0x1000),
            data: bytes[0..32].to_vec(),
        })
    );
    assert_eq!(
        rs[1],
        Record::S1(Data {
            address: Address16(0x1020),
            data: bytes[32..64].to_vec(),
        })
    );
    assert_eq!(
        rs[2],
        Record::S1(Data {
            address: Address16(0x1040),
            data: bytes[64..70].to_vec(),
        })
    );
}

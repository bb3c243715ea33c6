use srec::{generate_srec_file, Address16, Address24, Address32, Count16, Count24, Data, Record};

#[test]
fn writer_encode_s0_empty_string_returns_empty_record() {
    let r = Record::S0("".into());

    let s = r.encode();

    assert_eq!(s, "S0030000FC");
}

#[test]
fn writer_encode_s0_simple_string_returns_correct_record() {
    let r = Record::S0("HDR".into());

    let s = r.encode();

    assert_eq!(s, "S00600004844521B");
}

#[test]
fn writer_encode_s1_empty_returns_empty_record() {
    let r = Record::S1(Data {
        address: Address16(0x1234),
        data: vec![],
    });

    let s = r.encode();

    assert_eq!(s, "S1031234B6");
}

#[test]
fn writer_encode_s1_with_data_returns_correct_record() {
    let r = Record::S1(Data {
        address: Address16(0x1234),
        data: vec![0x00, 0x01, 0x02, 0x03],
    });

    let s = r.encode();

    assert_eq!(s, "S107123400010203AC");
}

#[test]
fn writer_encode_s2_empty_returns_empty_record() {
    let r = Record::S2(Data {
        address: Address24(0x123456),
        data: vec![],
    });

    let s = r.encode();

    assert_eq!(s, "S2041234565F");
}

#[test]
fn writer_encode_s2_with_data_returns_correct_record() {
    let r = Record::S2(Data {
        address: Address24(0x123456),
        data: vec![0x00, 0x01, 0x02, 0x03],
    });

    let s = r.encode();

    assert_eq!(s, "S2081234560001020355");
}

#[test]
fn writer_encode_s3_empty_returns_empty_record() {
    let r = Record::S3(Data {
        address: Address32(0x12345678),
        data: vec![],
    });

    let s = r.encode();

    assert_eq!(s, "S30512345678E6");
}

#[test]
fn writer_encode_s3_with_data_returns_correct_record() {
    let r = Record::S3(Data {
        address: Address32(0x12345678),
        data: vec![0x00, 0x01, 0x02, 0x03],
    });

    let s = r.encode();

    assert_eq!(s, "S3091234567800010203DC");
}

#[test]
fn writer_encode_s5_returns_correct_record() {
    let r = Record::S5(Count16(0x1234));

    let s = r.encode();

    assert_eq!(s, "S5031234B6");
}

#[test]
fn writer_encode_s6_returns_correct_record() {
    let r = Record::S6(Count24(0x123456));

    let s = r.encode();

    assert_eq!(s, "S6041234565F");
}

#[test]
fn writer_encode_s7_returns_correct_record() {
    let r = Record::S7(Address32(0x12345678));

    let s = r.encode();

    assert_eq!(s, "S70512345678E6");
}

#[test]
fn writer_encode_s8_returns_correct_record() {
    let r = Record::S8(Address24(0x123456));

    let s = r.encode();

    assert_eq!(s, "S8041234565F");
}

#[test]
fn writer_encode_s9_returns_correct_record() {
    let r = Record::S9(Address16(0x1234));

    let s = r.encode();

    assert_eq!(s, "S9031234B6");
}

#[test]
fn generate_srec_file_empty_list_returns_empty_string() {
    let r = [];

    let s = generate_srec_file(&r);

    assert_eq!(s, "");
}

#[test]
fn generate_srec_file_one_record_returns_single_record_newline_terminated() {
    let r = [Record::S0("HDR".into())];

    let s = generate_srec_file(&r);

    assert_eq!(s, "S00600004844521B\n");
}

#[test]
fn generate_srec_file_multiple_records_returns_all_records_joined_by_newline() {
    let r = [
        Record::S0("HDR".into()),
        Record::S1(Data {
            address: Address16(0x1234),
            data: vec![0x00, 0x01, 0x02, 0x03],
        }),
        Record::S1(Data {
            address: Address16(0x1238),
            data: vec![0x04, 0x05, 0x06, 0x07],
        }),
        Record::S9(Address16(0x1234)),
    ];

    let s = generate_srec_file(&r);

    assert_eq!(
        s,
        "S00600004844521B\nS107123400010203AC\nS10712380405060798\nS9031234B6\n"
    );
}

#[test]
fn encode_s1_with_longest_payload_round_trips() {
    let mut bytes: Vec<u8> = Vec::new();
    let mut i: usize = 0;
    while i < 252 {
        bytes.push((i % 256) as u8);
        i += 1;
    }
    let r = Record::S1(Data {
        address: Address16(0xBEEF),
        data: bytes,
    });

    let s = r.encode();
    let back = s.parse::<Record>();

    assert_eq!(s.len(), 2 + 2 + 2 * 255);
    assert_eq!(back, Ok(r));
}

#[test]
fn encode_s0_with_multibyte_text_round_trips() {
    let r = Record::S0("sm\u{f6}rg\u{e5}sbord \u{2713}".to_string());

    let s = r.encode();
    let back = s.parse::<Record>();

    assert_eq!(back, Ok(r));
}

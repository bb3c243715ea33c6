use srec::reader::{raw_record_from_str, read_records, Error, RawRecord};
use srec::{Address16, Address24, Address32, Count16, Count24, Data, Record};

#[test]
fn raw_record_from_str_empty_str_returns_err_not_enough_data() {
    let s = "";

    let rr = raw_record_from_str(s);

    assert_eq!(rr, Err(Error::NotEnoughData));
}

#[test]
fn raw_record_from_str_first_character_invalid_returns_err_unexpected_character() {
    let s = "D";

    let rr = raw_record_from_str(s);

    assert_eq!(rr, Err(Error::UnexpectedCharacter));
}

#[test]
fn raw_record_from_str_no_type_value_returns_err_not_enough_data() {
    let s = "S";

    let rr = raw_record_from_str(s);

    assert_eq!(rr, Err(Error::NotEnoughData));
}

#[test]
fn raw_record_from_str_invalid_type_value_returns_err_unexpected_character() {
    let s = "Sx";

    let rr = raw_record_from_str(s);

    assert_eq!(rr, Err(Error::UnexpectedCharacter));
}

#[test]
fn raw_record_from_str_byte_count_zero_returns_err_byte_count_zero() {
    let s = "S100";

    let rr = raw_record_from_str(s);

    assert_eq!(rr, Err(Error::ByteCountZero));
}

#[test]
fn raw_record_from_str_invalid_hex_character_returns_err_unexpected_character() {
    let s = "S104123400xx";

    let rr = raw_record_from_str(s);

    assert_eq!(rr, Err(Error::UnexpectedCharacter));
}

#[test]
fn raw_record_from_str_byte_count_too_large_returns_err_not_enough_data() {
    let s = "S1100000FFEF";

    let rr = raw_record_from_str(s);

    assert_eq!(rr, Err(Error::NotEnoughData));
}

#[test]
fn raw_record_from_str_valid_record_empty_returns_ok_correct_raw_record() {
    let s = "S101FE";

    let rr = raw_record_from_str(s);

    assert_eq!(
        rr,
        Ok(RawRecord {
            t: 1,
            bytes: vec![]
        })
    );
}

#[test]
fn raw_record_from_str_valid_record_valid_checksum_returns_ok_correct_raw_record() {
    let s = "S1101234000102030405060708090A0B0C5B";

    let rr = raw_record_from_str(s);

    assert_eq!(
        rr,
        Ok(RawRecord {
            t: 1,
            bytes: vec![
                0x12, 0x34, 0x00, 0x01, 0x02, 0x03, 0x04, 0x05, 0x06, 0x07, 0x08, 0x09, 0x0a,
                0x0b, 0x0c
            ],
        })
    );
}

#[test]
fn raw_record_from_str_valid_record_invalid_checksum_returns_ok_correct_raw_record() {
    let s = "S1101234000102030405060708090A0B0CFF";

    let rr = raw_record_from_str(s);

    assert_eq!(rr, Err(Error::ChecksumMismatch));
}

#[test]
fn s0_empty_string_from_str_returns_correct_record() {
    let s = "S0030000FC";

    let r = s.parse::<Record>();

    assert_eq!(r, Ok(Record::S0("".to_string())));
}

#[test]
fn s0_simple_string_from_str_returns_correct_record() {
    let s = "S00600004844521B";

    let r = s.parse::<Record>();

    assert_eq!(r, Ok(Record::S0("HDR".to_string())));
}

#[test]
fn s0_null_terminated_string_from_str_returns_correct_record() {
    let s = "S009000048445200000018";

    let r = s.parse::<Record>();

    assert_eq!(r, Ok(Record::S0("HDR".to_string())));
}

#[test]
fn s1_empty_from_str_returns_correct_record() {
    let s = "S1031234B6";

    let r = s.parse::<Record>();

    assert_eq!(
        r,
        Ok(Record::S1(Data {
            address: Address16(0x1234),
            data: vec![]
        }))
    );
}

#[test]
fn s1_with_data_from_str_returns_correct_record() {
    let s = "S107123400010203AC";

    let r = s.parse::<Record>();

    assert_eq!(
        r,
        Ok(Record::S1(Data {
            address: Address16(0x1234),
            data: vec![0x00, 0x01, 0x02, 0x03]
        }))
    );
}

#[test]
fn s1_invalid_from_str_returns_err_not_enough_data() {
    let s = "S10212EB";

    let r = s.parse::<Record>();

    assert_eq!(r, Err(Error::NotEnoughData));
}

#[test]
fn s2_empty_from_str_returns_correct_record() {
    let s = "S2041234565F";

    let r = s.parse::<Record>();

    assert_eq!(
        r,
        Ok(Record::S2(Data {
            address: Address24(0x123456),
            data: vec![]
        }))
    );
}

#[test]
fn s2_with_data_from_str_returns_correct_record() {
    let s = "S2081234560001020355";

    let r = s.parse::<Record>();

    assert_eq!(
        r,
        Ok(Record::S2(Data {
            address: Address24(0x123456),
            data: vec![0x00, 0x01, 0x02, 0x03]
        }))
    );
}

#[test]
fn s2_invalid_from_str_returns_err_not_enough_data() {
    let s = "S2031234B6";

    let r = s.parse::<Record>();

    assert_eq!(r, Err(Error::NotEnoughData));
}

#[test]
fn s3_empty_from_str_returns_correct_record() {
    let s = "S30512345678E6";

    let r = s.parse::<Record>();

    assert_eq!(
        r,
        Ok(Record::S3(Data {
            address: Address32(0x12345678),
            data: vec![]
        }))
    );
}

#[test]
fn s3_with_data_from_str_returns_correct_record() {
    let s = "S3091234567800010203DC";

    let r = s.parse::<Record>();

    assert_eq!(
        r,
        Ok(Record::S3(Data {
            address: Address32(0x12345678),
            data: vec![0x00, 0x01, 0x02, 0x03]
        }))
    );
}

#[test]
fn s3_invalid_from_str_returns_err_not_enough_data() {
    let s = "S3041234565F";

    let r = s.parse::<Record>();

    assert_eq!(r, Err(Error::NotEnoughData));
}

#[test]
fn s5_returns_correct_record() {
    let s = "S5031234B6";

    let r = s.parse::<Record>();

    assert_eq!(r, Ok(Record::S5(Count16(0x1234))));
}

#[test]
fn s5_invalid_from_str_returns_err_not_enough_data() {
    let s = "S50212EB";

    let r = s.parse::<Record>();

    assert_eq!(r, Err(Error::NotEnoughData));
}

#[test]
fn s6_returns_correct_record() {
    let s = "S6041234565F";

    let r = s.parse::<Record>();

    assert_eq!(r, Ok(Record::S6(Count24(0x123456))));
}

#[test]
fn s6_invalid_from_str_returns_err_not_enough_data() {
    let s = "S6031234B6";

    let r = s.parse::<Record>();

    assert_eq!(r, Err(Error::NotEnoughData));
}

#[test]
fn s7_returns_correct_record() {
    let s = "S70512345678E6";

    let r = s.parse::<Record>();

    assert_eq!(r, Ok(Record::S7(Address32(0x12345678))));
}

#[test]
fn s7_invalid_from_str_returns_err_not_enough_data() {
    let s = "S7041234565F";

    let r = s.parse::<Record>();

    assert_eq!(r, Err(Error::NotEnoughData));
}

#[test]
fn s8_returns_correct_record() {
    let s = "S8041234565F";

    let r = s.parse::<Record>();

    assert_eq!(r, Ok(Record::S8(Address24(0x123456))));
}

#[test]
fn s8_invalid_from_str_returns_err_not_enough_data() {
    let s = "S8031234B6";

    let r = s.parse::<Record>();

    assert_eq!(r, Err(Error::NotEnoughData));
}

#[test]
fn s9_returns_correct_record() {
    let s = "S9031234B6";

    let r = s.parse::<Record>();

    assert_eq!(r, Ok(Record::S9(Address16(0x1234))));
}

#[test]
fn s9_invalid_from_str_returns_err_not_enough_data() {
    let s = "S90212EB";

    let r = s.parse::<Record>();

    assert_eq!(r, Err(Error::NotEnoughData));
}

#[test]
fn record_from_str_returns_err_unexpected_character_on_unknown_type() {
    let s = "S401FE";

    let r = s.parse::<Record>();

    assert_eq!(r, Err(Error::UnexpectedCharacter));
}

#[test]
fn read_records_empty_string_returns_empty_iterator() {
    let s = "";

    let ri = read_records(s);

    assert!(ri.is_empty());
}

#[test]
fn read_records_one_line_returns_iterator_with_one_item() {
    let s = "S00600004844521B";

    let ri = read_records(s);

    assert_eq!(ri[0], Ok(Record::S0("HDR".to_string())));
    assert_eq!(ri.len(), 1);
}

#[test]
fn read_records_one_line_with_trailing_newline_returns_iterator_with_one_item() {
    let s = "S00600004844521B\n";

    let ri = read_records(s);

    assert_eq!(ri[0], Ok(Record::S0("HDR".to_string())));
    assert_eq!(ri.len(), 1);
}

#[test]
fn read_records_one_line_with_empty_line_returns_iterator_with_one_item() {
    let s = "S00600004844521B\n\n";

    let ri = read_records(s);

    assert_eq!(ri[0], Ok(Record::S0("HDR".to_string())));
    assert_eq!(ri.len(), 1);
}

#[test]
fn read_records_multiple_lines_returns_iterator_containing_all() {
    let s = "S00600004844521B\nS107123400010203AC";

    let ri = read_records(s);

    assert_eq!(ri[0], Ok(Record::S0("HDR".to_string())));
    assert_eq!(
        ri[1],
        Ok(Record::S1(Data {
            address: Address16(0x1234),
            data: vec![0x00, 0x01, 0x02, 0x03],
        }))
    );
    assert_eq!(ri.len(), 2);
}

#[test]
fn s0_with_invalid_utf8_text_returns_err_invalid_utf8() {
    let s = "S0040000FFFC";

    let r = s.parse::<Record>();

    assert_eq!(r, Err(Error::InvalidUtf8));
}

#[test]
fn s0_too_short_for_address_returns_err_not_enough_data() {
    let s = "S001FE";

    let r = s.parse::<Record>();

    assert_eq!(r, Err(Error::NotEnoughData));
}

#[test]
fn lowercase_hex_digits_are_accepted() {
    let s = "S107123400010203ac";

    let r = s.parse::<Record>();

    assert_eq!(
        r,
        Ok(Record::S1(Data {
            address: Address16(0x1234),
            data: vec![0x00, 0x01, 0x02, 0x03]
        }))
    );
}

#[test]
fn read_records_skips_blank_and_whitespace_lines() {
    let s = "\n   \nS9031234B6\n\t\n";

    let ri = read_records(s);

    assert_eq!(ri[0], Ok(Record::S9(Address16(0x1234))));
    assert_eq!(ri.len(), 1);
}

use pumpkin_logic::snbt_operations::{NbtTag, SnbtOperation, SnbtOperationError, SnbtOperations};

#[test]
fn parse_uuids() {
    assert_eq!(
        SnbtOperations::parse_uuid("3d569d3a-93ef-44a0-9f1c-f69db9d37a56"),
        Some(vec![1029086522, -1813035872, -1625491811, -1177322922])
    );
    assert_eq!(
        SnbtOperations::parse_uuid("3d53a-f-40-c-f69db9d37a56"),
        Some(vec![251194, 983104, 849565, -1177322922])
    );
    assert_eq!(SnbtOperations::parse_uuid("3d53a-f40-c-f69db9d37a56"), None);
    assert_eq!(
        SnbtOperations::parse_uuid("fffffffffffffff-0-0-0-0"),
        Some(vec![-1, 0, 0, 0])
    );
    assert_eq!(SnbtOperations::parse_uuid("ffffffffffffffff-0-0-0-0"), None);
    assert_eq!(
        SnbtOperations::parse_uuid("+1-+2-+3-+4-+5"),
        Some(vec![1, 131075, 262144, 5])
    );
    assert_eq!(
        SnbtOperations::parse_uuid("aaaaaaaaaaaaaaa-bbbbbbbbbbbbbb-c-d-e"),
        Some(vec![-1431655766, -1145372660, 851968, 14])
    );
}

#[test]
fn parse_uuid_rejects_malformed_text() {
    // more than 36 bytes
    assert_eq!(SnbtOperations::parse_uuid("00000000-0000-0000-0000-0000000000000"), None);
    // six fields
    assert_eq!(SnbtOperations::parse_uuid("1-2-3-4-5-6"), None);
    // an empty field
    assert_eq!(SnbtOperations::parse_uuid("1--3-4-5"), None);
    // a sign with no digits
    assert_eq!(SnbtOperations::parse_uuid("+-1-2-3-4"), None);
    // a character that is not a hexadecimal digit
    assert_eq!(SnbtOperations::parse_uuid("1-2-3-4-g"), None);
    // a non-ASCII character
    assert_eq!(SnbtOperations::parse_uuid("1-2-3-4-\u{e9}"), None);
    assert_eq!(SnbtOperations::parse_uuid(""), None);
}

#[test]
fn parse_uuid_keeps_the_low_bits_of_each_field() {
    assert_eq!(
        SnbtOperations::parse_uuid("123456789-1-2-12345-123456789abcd"),
        Some(vec![0x23456789, 0x10002, 0x23452345, 0x6789abcd])
    );
    assert_eq!(
        SnbtOperations::parse_uuid("ABCDEF01-0-0-0-0"),
        Some(vec![0xABCDEF01_u32 as i32, 0, 0, 0])
    );
}

#[test]
fn search_finds_the_builtin_operations() {
    assert_eq!(SnbtOperations::search("bool", 1), Some(SnbtOperation::Bool));
    assert_eq!(SnbtOperations::search("uuid", 1), Some(SnbtOperation::Uuid));
    assert_eq!(SnbtOperations::search("bool", 2), None);
    assert_eq!(SnbtOperations::search("uuid", 0), None);
    assert_eq!(SnbtOperations::search("true", 1), None);
    assert_eq!(SnbtOperations::search("Bool", 1), None);
}

#[test]
fn builtin_ids_are_listed() {
    assert_eq!(SnbtOperations::builtin_ids(), vec!["true", "false", "bool", "uuid"]);
}

#[test]
fn bool_operation_maps_numbers_to_bytes() {
    assert_eq!(SnbtOperations::bool(&[NbtTag::Int(5)]), Ok(NbtTag::Byte(1)));
    assert_eq!(SnbtOperations::bool(&[NbtTag::Byte(0)]), Ok(NbtTag::Byte(0)));
    assert_eq!(SnbtOperations::bool(&[NbtTag::Byte(1)]), Ok(NbtTag::Byte(1)));
    assert_eq!(SnbtOperations::bool(&[NbtTag::Short(-3)]), Ok(NbtTag::Byte(1)));
    assert_eq!(SnbtOperations::bool(&[NbtTag::Long(0)]), Ok(NbtTag::Byte(0)));
    assert_eq!(SnbtOperations::bool(&[NbtTag::Float((-0.0f32).to_bits())]), Ok(NbtTag::Byte(0)));
    assert_eq!(SnbtOperations::bool(&[NbtTag::Float(0.5f32.to_bits())]), Ok(NbtTag::Byte(1)));
    assert_eq!(SnbtOperations::bool(&[NbtTag::Double(0.0f64.to_bits())]), Ok(NbtTag::Byte(0)));
    assert_eq!(SnbtOperations::bool(&[NbtTag::Double(2.0f64.to_bits())]), Ok(NbtTag::Byte(1)));
    assert_eq!(
        SnbtOperations::bool(&[NbtTag::String("true".to_string())]),
        Err(SnbtOperationError::ExpectedNumberOrBoolean)
    );
}

#[test]
fn uuid_operation_parses_strings() {
    assert_eq!(
        SnbtOperations::uuid(&[NbtTag::String("3d569d3a-93ef-44a0-9f1c-f69db9d37a56".to_string())]),
        Ok(NbtTag::IntArray(vec![1029086522, -1813035872, -1625491811, -1177322922]))
    );
    assert_eq!(
        SnbtOperations::uuid(&[NbtTag::String("not-a-uuid".to_string())]),
        Err(SnbtOperationError::ExpectedStringUuid)
    );
    assert_eq!(
        SnbtOperations::uuid(&[NbtTag::Int(1)]),
        Err(SnbtOperationError::ExpectedStringUuid)
    );
}

#[test]
fn operations_run_through_search() {
    let op = SnbtOperations::search("uuid", 1).unwrap();
    assert_eq!(
        op.run(&[NbtTag::String("1-2-3-4-5".to_string())]),
        Ok(NbtTag::IntArray(vec![1, 0x20003, 0x40000, 5]))
    );
    let op = SnbtOperations::search("bool", 1).unwrap();
    assert_eq!(op.run(&[NbtTag::Int(0)]), Ok(NbtTag::Byte(0)));
}

#[test]
fn canonical_uuid_text_parses_to_its_words() {
    let n: u128 = 0x3d569d3a_93ef_44a0_9f1c_f69db9d37a56;
    let words = vec![(n >> 96) as i32, (n >> 64) as i32, (n >> 32) as i32, n as i32];
    let lower = format!(
        "{:08x}-{:04x}-{:04x}-{:04x}-{:012x}",
        n >> 96,
        (n >> 80) & 0xffff,
        (n >> 64) & 0xffff,
        (n >> 48) & 0xffff,
        n & 0xffff_ffff_ffff
    );
    assert_eq!(SnbtOperations::parse_uuid(&lower), Some(words.clone()));
    assert_eq!(SnbtOperations::parse_uuid(&lower.to_uppercase()), Some(words));
    assert_eq!(SnbtOperations::parse_uuid("00000000-0000-0000-0000-000000000000"), Some(vec![0, 0, 0, 0]));
}

#[test]
fn uuids_written_by_the_uuid_crate_parse_to_their_words() {
    let values: [u128; 4] = [0, u128::MAX, 0x0123_4567_89ab_cdef_fedc_ba98_7654_3210, 1 << 127];
    for n in values {
        let words = vec![(n >> 96) as i32, (n >> 64) as i32, (n >> 32) as i32, n as i32];
        let text = uuid::Uuid::from_u128(n).hyphenated().to_string();
        assert_eq!(SnbtOperations::parse_uuid(&text), Some(words.clone()));
        let upper = uuid::Uuid::from_u128(n).hyphenated().encode_upper(&mut uuid::Uuid::encode_buffer()).to_string();
        assert_eq!(SnbtOperations::parse_uuid(&upper), Some(words));
    }
}

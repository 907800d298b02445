use rustdb::storage::row::{decode, encode, encode_value, ColumnType, Value};
use rustdb::storage::StorageError;

fn schema_int_text_bool() -> Vec<ColumnType> {
    vec![ColumnType::Int, ColumnType::Text, ColumnType::Bool]
}

#[test]
fn encode_decode_roundtrip() {
    let schema = schema_int_text_bool();
    let values = vec![
        Value::Int(42),
        Value::Text("hello".to_string()),
        Value::Bool(true),
    ];
    let encoded = encode(&schema, &values, 1, 0).unwrap();
    let (txn, tomb, decoded) = decode(&schema, &encoded).unwrap();
    assert_eq!(txn, 1);
    assert_eq!(tomb, 0);
    assert_eq!(decoded, values);
}

#[test]
fn tombstone_deleted() {
    let schema = schema_int_text_bool();
    let values = vec![Value::Int(0), Value::Text("x".to_string()), Value::Bool(false)];
    let encoded = encode(&schema, &values, 99, 1).unwrap();
    let (txn, tomb, _) = decode(&schema, &encoded).unwrap();
    assert_eq!(txn, 99);
    assert_eq!(tomb, 1);
}

#[test]
fn empty_text() {
    let schema = vec![ColumnType::Text];
    let values = vec![Value::Text(String::new())];
    let encoded = encode(&schema, &values, 0, 0).unwrap();
    let (_, _, decoded) = decode(&schema, &encoded).unwrap();
    assert_eq!(decoded, values);
}

#[test]
fn encode_writes_the_documented_bytes() {
    let schema = schema_int_text_bool();
    let values = vec![
        Value::Int(-2),
        Value::Text("hé".to_string()),
        Value::Bool(true),
    ];
    let encoded = encode(&schema, &values, 0x0102_0304_0506_0708, 1).unwrap();
    let expected: Vec<u8> = vec![
        0x08, 0x07, 0x06, 0x05, 0x04, 0x03, 0x02, 0x01, // txn id, little-endian
        1,    // tombstone
        0xfe, 0xff, 0xff, 0xff, 0xff, 0xff, 0xff, 0xff, // -2
        3, 0, 0, 0, // three bytes of text
        b'h', 0xc3, 0xa9, // "hé"
        1,    // true
    ];
    assert_eq!(encoded, expected);
}

#[test]
fn encode_refuses_a_schema_of_another_length() {
    let schema = vec![ColumnType::Int];
    let values = vec![Value::Int(1), Value::Int(2)];
    assert_eq!(encode(&schema, &values, 1, 0), Err(StorageError::SchemaMismatch));
    assert_eq!(encode(&schema, &[], 1, 0), Err(StorageError::SchemaMismatch));
}

#[test]
fn encode_refuses_a_value_of_another_kind() {
    let schema = vec![ColumnType::Int, ColumnType::Bool];
    let values = vec![Value::Int(1), Value::Text("no".to_string())];
    assert_eq!(encode(&schema, &values, 1, 0), Err(StorageError::SchemaMismatch));
}

#[test]
fn encode_value_leaves_the_buffer_alone_on_mismatch() {
    let mut buf = vec![7u8, 8, 9];
    let res = encode_value(&mut buf, &ColumnType::Bool, &Value::Int(5));
    assert_eq!(res, Err(StorageError::SchemaMismatch));
    assert_eq!(buf, vec![7u8, 8, 9]);
    encode_value(&mut buf, &ColumnType::Bool, &Value::Bool(false)).unwrap();
    assert_eq!(buf, vec![7u8, 8, 9, 0]);
}

#[test]
fn decode_refuses_a_row_shorter_than_its_header() {
    let schema: Vec<ColumnType> = vec![];
    assert_eq!(decode(&schema, &[0u8; 8]), Err(StorageError::ShortRow));
    assert_eq!(decode(&schema, &[]), Err(StorageError::ShortRow));
    assert_eq!(decode(&schema, &[0u8; 9]), Ok((0, 0, vec![])));
}

#[test]
fn decode_refuses_truncated_fields() {
    let header = [0u8; 9];
    let mut row = header.to_vec();
    row.extend_from_slice(&[1, 2, 3, 4, 5, 6, 7]);
    assert_eq!(decode(&[ColumnType::Int], &row), Err(StorageError::TruncatedField));
    let mut row = header.to_vec();
    row.extend_from_slice(&[5, 0, 0]);
    assert_eq!(decode(&[ColumnType::Text], &row), Err(StorageError::TruncatedField));
    let mut row = header.to_vec();
    row.extend_from_slice(&[5, 0, 0, 0, b'a', b'b', b'c', b'd']);
    assert_eq!(decode(&[ColumnType::Text], &row), Err(StorageError::TruncatedField));
    assert_eq!(decode(&[ColumnType::Bool], &header), Err(StorageError::TruncatedField));
}

#[test]
fn decode_refuses_text_that_is_not_utf8() {
    let mut row = vec![0u8; 9];
    row.extend_from_slice(&[2, 0, 0, 0, 0xff, 0xfe]);
    assert_eq!(decode(&[ColumnType::Text], &row), Err(StorageError::BadUtf8));
}

#[test]
fn decode_reports_the_first_column_that_fails() {
    let mut row = vec![0u8; 9];
    row.extend_from_slice(&[1, 0, 0, 0, 0xff]);
    let schema = [ColumnType::Text, ColumnType::Int];
    assert_eq!(decode(&schema, &row), Err(StorageError::BadUtf8));
}

#[test]
fn decode_takes_any_nonzero_byte_for_true() {
    let mut row = vec![0u8; 9];
    row.extend_from_slice(&[0, 1, 2, 255]);
    let schema = [ColumnType::Bool, ColumnType::Bool, ColumnType::Bool, ColumnType::Bool];
    let (_, _, values) = decode(&schema, &row).unwrap();
    assert_eq!(
        values,
        vec![Value::Bool(false), Value::Bool(true), Value::Bool(true), Value::Bool(true)]
    );
}

#[test]
fn decode_ignores_bytes_behind_the_last_column() {
    let mut row = vec![0u8; 9];
    row[0] = 5;
    row[8] = 1;
    row.extend_from_slice(&[1, 9, 9, 9]);
    assert_eq!(decode(&[ColumnType::Bool], &row), Ok((5, 1, vec![Value::Bool(true)])));
}

#[test]
fn decode_reads_text_as_the_string_of_its_bytes() {
    let mut row = vec![0u8; 9];
    row.extend_from_slice(&[6, 0, 0, 0]);
    row.extend_from_slice("grüß".as_bytes());
    let (_, _, values) = decode(&[ColumnType::Text], &row).unwrap();
    assert_eq!(values, vec![Value::Text("grüß".to_string())]);
    // one byte less cuts the last character in two
    row[9] = 5;
    assert_eq!(decode(&[ColumnType::Text], &row), Err(StorageError::BadUtf8));
}

#[test]
fn round_trip_of_extreme_values() {
    let schema = vec![
        ColumnType::Int,
        ColumnType::Int,
        ColumnType::Text,
        ColumnType::Bool,
        ColumnType::Text,
    ];
    let values = vec![
        Value::Int(i64::MIN),
        Value::Int(i64::MAX),
        Value::Text("a\u{10ffff}\u{0}z".to_string()),
        Value::Bool(false),
        Value::Text(String::new()),
    ];
    let encoded = encode(&schema, &values, u64::MAX, 255).unwrap();
    assert_eq!(decode(&schema, &encoded), Ok((u64::MAX, 255, values)));
}

use kvs::{decode, encode, segment_file_name, Entry, ErrorKind, KvsError, ParsePath, Permissions};

#[test]
fn encode_put_exact_text() {
    let entry = Entry::set("a".to_string(), "1".to_string());
    assert_eq!(encode(&entry), "S1:a1:1".to_string());
}

#[test]
fn encode_rm_exact_text() {
    let entry = Entry::rm("key".to_string());
    assert_eq!(encode(&entry), "R3:key".to_string());
}

#[test]
fn encode_empty_strings() {
    let entry = Entry::set(String::new(), String::new());
    assert_eq!(encode(&entry), "S0:0:".to_string());
}

#[test]
fn round_trip_simple() {
    let entry = Entry::set("module_name".to_string(), "kvs".to_string());
    assert_eq!(decode(encode(&entry).as_str()).unwrap(), entry);
}

#[test]
fn round_trip_rm() {
    let entry = Entry::rm("album_name".to_string());
    assert_eq!(decode(encode(&entry).as_str()).unwrap(), entry);
}

#[test]
fn round_trip_tricky_characters() {
    // colons, digits and tag letters inside keys and values must survive
    let entry = Entry::set("a:b:7".to_string(), "S1:R2:99".to_string());
    assert_eq!(decode(encode(&entry).as_str()).unwrap(), entry);
}

#[test]
fn round_trip_unicode() {
    let entry = Entry::set("clé".to_string(), "två ord €".to_string());
    assert_eq!(decode(encode(&entry).as_str()).unwrap(), entry);
}

#[test]
fn round_trip_long_value() {
    let value: String = "x".repeat(1000);
    let entry = Entry::set("k".to_string(), value);
    assert_eq!(decode(encode(&entry).as_str()).unwrap(), entry);
}

#[test]
fn decode_rejects_empty_text() {
    assert_eq!(decode("").unwrap_err().kind, ErrorKind::Serialization);
}

#[test]
fn decode_rejects_unknown_tag() {
    assert_eq!(decode("X1:a").unwrap_err().kind, ErrorKind::Serialization);
}

#[test]
fn decode_rejects_truncated_text() {
    assert_eq!(decode("S1:a1:").unwrap_err().kind, ErrorKind::Serialization);
    assert_eq!(decode("S5:ab").unwrap_err().kind, ErrorKind::Serialization);
}

#[test]
fn decode_rejects_trailing_garbage() {
    assert_eq!(decode("R1:a!").unwrap_err().kind, ErrorKind::Serialization);
}

#[test]
fn decode_rejects_leading_zero_length() {
    assert_eq!(decode("S01:a1:b").unwrap_err().kind, ErrorKind::Serialization);
}

#[test]
fn decode_rejects_missing_length() {
    assert_eq!(decode("S:a").unwrap_err().kind, ErrorKind::Serialization);
}

#[test]
fn decode_rejects_huge_length() {
    assert_eq!(
        decode("S99999999999999999999:a").unwrap_err().kind,
        ErrorKind::Serialization
    );
}

#[test]
fn decode_at_walks_a_stream_of_entries() {
    let put = Entry::set("a".to_string(), "1".to_string());
    let rm = Entry::rm("a".to_string());
    let mut stream = kvs::encode(&put);
    stream.push_str(&kvs::encode(&rm));
    let (first, after_first) = kvs::decode_at(&stream, 0).unwrap();
    assert_eq!(first, put);
    assert_eq!(after_first, 7);
    let (second, end) = kvs::decode_at(&stream, after_first).unwrap();
    assert_eq!(second, rm);
    assert_eq!(end, stream.chars().count());
    assert_eq!(
        kvs::decode_at(&stream, end).unwrap_err().kind,
        ErrorKind::Serialization
    );
}

#[test]
fn segment_file_names() {
    assert_eq!(segment_file_name(0), "0.log".to_string());
    assert_eq!(segment_file_name(112902), "112902.log".to_string());
    assert_eq!(segment_file_name(u64::MAX), "18446744073709551615.log".to_string());
}

#[test]
fn parse_number_from_path_reads_the_stem() {
    let path = "112902.log".to_string();
    assert_eq!(path.parse_number_from_path().unwrap(), 112902);
    assert_eq!("0.log".to_string().parse_number_from_path().unwrap(), 0);
}

#[test]
fn parse_number_from_path_accepts_leading_zeros() {
    assert_eq!("007.log".to_string().parse_number_from_path().unwrap(), 7);
}

#[test]
fn parse_number_from_path_reads_the_largest_id() {
    assert_eq!(
        "18446744073709551615.log".to_string().parse_number_from_path().unwrap(),
        u64::MAX
    );
}

#[test]
fn parse_number_from_path_rejects_foreign_names() {
    for name in ["foo.log", "123.txt", "123", ".log", "12a.log", "", "x", "18446744073709551616.log"] {
        let err = name.to_string().parse_number_from_path().unwrap_err();
        assert_eq!(err.kind, ErrorKind::PathFormat, "{}", name);
    }
}

#[test]
fn entry_get_key() {
    assert_eq!(
        Entry::set("k".to_string(), "v".to_string()).get_key(),
        &"k".to_string()
    );
    assert_eq!(Entry::rm("r".to_string()).get_key(), &"r".to_string());
}

#[test]
fn error_from_string() {
    let error = KvsError::from_string("Key not found.".to_string());
    let other_error = KvsError::from_string(String::from("This also works"));
    assert_eq!(error.error_message, String::from("Key not found."));
    assert_eq!(error.kind, ErrorKind::Io);
    assert_eq!(other_error.error_message, String::from("This also works"));
}

#[test]
fn permissions_flag() {
    assert!(Permissions::Allowed.is_allowed());
    assert!(!Permissions::NotAllowed.is_allowed());
}

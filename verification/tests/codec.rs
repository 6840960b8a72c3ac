use kvorm::codec::{KeyCodec, ValueCodec};
use kvorm::command::Command;
use kvorm::error::Error;
use kvorm::key::EncodedKey;

fn s(x: &str) -> String {
    String::from(x)
}

fn sample() -> Command {
    Command {
        executable: 1,
        args: vec![s("arg1"), s("arg2"), s("arg3")],
        current_dir: Some(s("\\dir")),
    }
}

#[test]
fn key_exact_bytes() {
    let key = Command::encode_key(&(1, vec![s("a")])).unwrap();
    let expected: Vec<u8> = vec![
        1, // discriminant
        1, 0, 0, 0, 0, 0, 0, 0, // one argument
        1, 0, 0, 0, 0, 0, 0, 0, // one byte of UTF-8
        0x61,
    ];
    assert_eq!(key.as_slice(), &expected[..]);
}

#[test]
fn value_exact_bytes_without_dir() {
    let cmd = Command { executable: 7, args: vec![s("a")], current_dir: None };
    let bytes = cmd.encode().unwrap();
    let expected: Vec<u8> = vec![
        7, 1, 0, 0, 0, 0, 0, 0, 0, 1, 0, 0, 0, 0, 0, 0, 0, 0x61, 0, // absent dir
    ];
    assert_eq!(bytes, expected);
}

#[test]
fn value_exact_bytes_with_dir() {
    let cmd = Command { executable: 7, args: vec![], current_dir: Some(s("b")) };
    let bytes = cmd.encode().unwrap();
    let expected: Vec<u8> = vec![
        7, 0, 0, 0, 0, 0, 0, 0, 0, // no arguments
        1, // present dir
        1, 0, 0, 0, 0, 0, 0, 0, 0x62,
    ];
    assert_eq!(bytes, expected);
}

#[test]
fn key_round_trip() {
    let logical = (1u8, vec![s("arg1"), s("arg2"), s("arg3")]);
    let encoded = Command::encode_key(&logical).unwrap();
    let decoded = Command::decode_key(&encoded).unwrap();
    assert_eq!(decoded, logical);
}

#[test]
fn key_round_trip_empty_args() {
    let logical = (0u8, Vec::<String>::new());
    let encoded = Command::encode_key(&logical).unwrap();
    assert_eq!(Command::decode_key(&encoded).unwrap(), logical);
}

#[test]
fn key_round_trip_empty_string() {
    let logical = (255u8, vec![s(""), s(""), s("x")]);
    let encoded = Command::encode_key(&logical).unwrap();
    assert_eq!(Command::decode_key(&encoded).unwrap(), logical);
}

#[test]
fn key_round_trip_unicode() {
    let logical = (42u8, vec![s("h\u{e9}llo"), s("\u{65e5}\u{672c}\u{8a9e}"), s("\u{1f600}")]);
    let encoded = Command::encode_key(&logical).unwrap();
    assert_eq!(Command::decode_key(&encoded).unwrap(), logical);
}

#[test]
fn key_derived_from_record_matches_encode_key() {
    let cmd = sample();
    let from_record = cmd.key().unwrap();
    let from_fields = Command::encode_key(&(cmd.executable, cmd.args.clone())).unwrap();
    assert_eq!(from_record.as_slice(), from_fields.as_slice());
}

#[test]
fn value_round_trip() {
    let cmd = sample();
    let bytes = cmd.encode().unwrap();
    assert_eq!(Command::decode(&bytes).unwrap(), cmd);
}

#[test]
fn value_round_trip_no_dir() {
    let cmd = Command { executable: 0, args: vec![], current_dir: None };
    let bytes = cmd.encode().unwrap();
    assert_eq!(Command::decode(&bytes).unwrap(), cmd);
}

#[test]
fn value_round_trip_unicode_dir() {
    let cmd = Command { executable: 9, args: vec![s("\u{fc}ber")], current_dir: Some(s("\u{2615}")) };
    let bytes = cmd.encode().unwrap();
    assert_eq!(Command::decode(&bytes).unwrap(), cmd);
}

#[test]
fn decode_rejects_truncated_value() {
    let bytes = sample().encode().unwrap();
    for cut in 0..bytes.len() {
        let truncated = &bytes[..cut];
        assert_eq!(Command::decode(truncated).unwrap_err(), Error::DecodingError);
    }
}

#[test]
fn decode_rejects_trailing_garbage() {
    let mut bytes = sample().encode().unwrap();
    bytes.push(0);
    assert_eq!(Command::decode(&bytes).unwrap_err(), Error::DecodingError);
}

#[test]
fn decode_rejects_bad_option_tag() {
    let mut bytes = sample().encode().unwrap();
    let cmd = sample();
    let key_len = Command::encode_key(&(cmd.executable, cmd.args.clone())).unwrap().as_slice().len();
    bytes[key_len] = 2; // neither absent nor present
    assert_eq!(Command::decode(&bytes).unwrap_err(), Error::DecodingError);
}

#[test]
fn decode_rejects_invalid_utf8() {
    // one argument of one byte, but that byte is a lone continuation byte
    let bytes: Vec<u8> = vec![1, 1, 0, 0, 0, 0, 0, 0, 0, 1, 0, 0, 0, 0, 0, 0, 0, 0x80, 0];
    assert_eq!(Command::decode(&bytes).unwrap_err(), Error::DecodingError);
}

#[test]
fn decode_rejects_oversized_length_prefix() {
    // claims one argument of 2^56 bytes with nothing behind it
    let bytes: Vec<u8> = vec![1, 1, 0, 0, 0, 0, 0, 0, 0, 0, 0, 0, 0, 0, 0, 0, 1, 0];
    assert_eq!(Command::decode(&bytes).unwrap_err(), Error::DecodingError);
}

#[test]
fn decode_key_rejects_truncated_key() {
    let encoded = Command::encode_key(&(1, vec![s("arg1")])).unwrap();
    let bytes = encoded.as_slice();
    for cut in 0..bytes.len() {
        let shorter: EncodedKey<Command> = EncodedKey::from_u8(&bytes[..cut]);
        assert_eq!(Command::decode_key(&shorter).unwrap_err(), Error::DecodingError);
    }
}

#[test]
fn decode_key_rejects_trailing_garbage() {
    let encoded = Command::encode_key(&(1, vec![s("arg1")])).unwrap();
    let mut bytes = encoded.as_slice().to_vec();
    bytes.push(7);
    let longer: EncodedKey<Command> = EncodedKey::from_vec(bytes);
    assert_eq!(Command::decode_key(&longer).unwrap_err(), Error::DecodingError);
}

#[test]
fn encoded_key_equality_is_byte_equality() {
    let a = Command::encode_key(&(1, vec![s("x")])).unwrap();
    let b = Command::encode_key(&(1, vec![s("x")])).unwrap();
    let c = Command::encode_key(&(2, vec![s("x")])).unwrap();
    assert!(a == b);
    assert!(a != c);
    let wrapped: EncodedKey<Command> = EncodedKey::from_u8(a.as_slice());
    assert!(wrapped == a);
}

#[test]
fn error_descriptions_are_distinct() {
    assert_ne!(Error::EncodingError.describe(), Error::DecodingError.describe());
    assert_ne!(Error::EngineError.describe(), Error::ClosedHandleError.describe());
}

#[test]
fn key_ordering_is_byte_order() {
    let k1 = Command::encode_key(&(1, vec![s("a")])).unwrap();
    let k2 = Command::encode_key(&(2, vec![s("a")])).unwrap();
    assert!(k1.is_before(&k2));
    assert!(!k2.is_before(&k1));
    assert!(!k1.is_before(&k1));
    assert!(k1.as_slice() < k2.as_slice());
}

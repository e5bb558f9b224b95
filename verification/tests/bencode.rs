use stormdrain::bencode::{bencode_encode, decode, decode_torrent, Dict, Value};
use stormdrain::error::{BencodeError, Error};
use stormdrain::text::IntFault;

#[test]
fn decode_integer_positive() {
    assert_eq!(decode(b"i42e").unwrap(), Value::Int(42));
}

#[test]
fn decode_integer_negative() {
    assert_eq!(decode(b"i-1e").unwrap(), Value::Int(-1));
}

#[test]
fn decode_integer_zero() {
    assert_eq!(decode(b"i0e").unwrap(), Value::Int(0));
}

#[test]
fn decode_byte_string() {
    assert_eq!(decode(b"4:spam").unwrap(), Value::Bytes(b"spam".to_vec()));
}

#[test]
fn decode_empty_byte_string() {
    assert_eq!(decode(b"0:").unwrap(), Value::Bytes(vec![]));
}

#[test]
fn decode_list() {
    let v = decode(b"l4:spami42ee").unwrap();
    let list = v.as_list().unwrap();
    assert_eq!(list.len(), 2);
    assert_eq!(list[0].as_bytes(), Some(b"spam".as_ref()));
    assert_eq!(list[1].as_int(), Some(42));
}

#[test]
fn decode_empty_list() {
    assert_eq!(decode(b"le").unwrap(), Value::List(vec![]));
}

#[test]
fn decode_dict() {
    let v = decode(b"d3:bari1e3:fooi2ee").unwrap();
    let d = v.as_dict().unwrap();
    assert_eq!(d.get(b"bar".as_ref()).and_then(|v| v.as_int()), Some(1));
    assert_eq!(d.get(b"foo".as_ref()).and_then(|v| v.as_int()), Some(2));
}

#[test]
fn decode_empty_dict() {
    let v = decode(b"de").unwrap();
    assert_eq!(v.as_dict().unwrap().len(), 0);
}

#[test]
fn decode_nested_structure() {
    let v = decode(b"d3:keyli1ei2ei3eee").unwrap();
    let list = v.get(b"key").unwrap().as_list().unwrap();
    assert_eq!(list.len(), 3);
    assert_eq!(list[2].as_int(), Some(3));
}

#[test]
fn value_as_str_valid_utf8() {
    assert_eq!(decode(b"5:hello").unwrap().as_str(), Some("hello"));
}

#[test]
fn value_as_str_non_utf8_returns_none() {
    let v = decode(b"3:\xff\xfe\xfd").unwrap();
    assert!(v.as_str().is_none());
}

#[test]
fn value_get_missing_key_returns_none() {
    let v = decode(b"d3:keyi1ee").unwrap();
    assert!(v.get(b"other").is_none());
}

#[test]
fn value_get_on_non_dict_returns_none() {
    let v = decode(b"i42e").unwrap();
    assert!(v.get(b"key").is_none());
}

#[test]
fn decode_error_unterminated_integer() {
    assert!(decode(b"i42").is_err());
}

#[test]
fn decode_error_truncated_byte_string() {
    assert!(decode(b"5:hi").is_err());
}

#[test]
fn decode_error_unterminated_list() {
    assert!(decode(b"l4:spam").is_err());
}

#[test]
fn decode_error_unterminated_dict() {
    assert!(decode(b"d4:name4:test").is_err());
}

#[test]
fn decode_error_empty_input() {
    assert!(decode(b"").is_err());
}

#[test]
fn decode_torrent_extracts_info_range() {
    // dict with "info" key — range should span the raw info-dict bytes.
    let data = b"d4:infod4:name4:testee";
    let (val, range) = decode_torrent(data).unwrap();
    assert!(val.as_dict().is_some());
    let (start, end) = range.expect("should have info range");
    // The slice should re-decode as a valid dict with the same contents.
    let info_val = decode(&data[start..end]).unwrap();
    assert_eq!(info_val.get(b"name").and_then(|v| v.as_str()), Some("test"));
}

#[test]
fn decode_torrent_without_info_key_yields_none_range() {
    let data = b"d4:name4:teste";
    let (_, range) = decode_torrent(data).unwrap();
    assert!(range.is_none());
}

#[test]
fn decode_torrent_non_dict_errors() {
    assert!(decode_torrent(b"l4:infoe").is_err());
}

#[test]
fn errors_name_their_cause() {
    let fails = |data: &[u8], e: BencodeError| {
        assert_eq!(decode(data).unwrap_err(), Error::Bencode(e));
    };
    fails(b"i42", BencodeError::UnterminatedInteger);
    let bad = |text: &str, cause: IntFault| BencodeError::InvalidInteger {
        text: text.to_string(),
        cause,
    };
    fails(b"ixe", bad("x", IntFault::InvalidDigit));
    fails(b"ie", bad("", IntFault::Empty));
    fails(b"i-e", bad("-", IntFault::InvalidDigit));
    fails(
        b"i9223372036854775808e",
        bad("9223372036854775808", IntFault::TooLarge),
    );
    fails(
        b"i-9223372036854775809e",
        bad("-9223372036854775809", IntFault::TooSmall),
    );
    fails(
        b"i99999999999999999999xe",
        bad("99999999999999999999x", IntFault::TooLarge),
    );
    fails(
        b"i\xffe",
        BencodeError::NonUtf8Integer {
            reason: std::str::from_utf8(b"\xff").unwrap_err().to_string(),
        },
    );
    fails(
        b"5:hi",
        BencodeError::LengthExceedsInput { len: 5, offset: 2 },
    );
    fails(b"l4:spam", BencodeError::UnterminatedList);
    fails(b"d4:name4:test", BencodeError::UnterminatedDict);
    fails(
        b"x",
        BencodeError::UnexpectedByte {
            byte: 0x78,
            offset: 0,
        },
    );
    fails(b"", BencodeError::UnexpectedEnd);
    assert_eq!(
        decode_torrent(b"le").unwrap_err(),
        Error::Bencode(BencodeError::TorrentNotDict)
    );
    assert_eq!(
        decode_torrent(b"d4:infoi1e").unwrap_err(),
        Error::Bencode(BencodeError::UnterminatedTopLevelDict)
    );
}

#[test]
fn extreme_integers() {
    assert_eq!(
        decode(b"i-9223372036854775808e").unwrap(),
        Value::Int(i64::MIN)
    );
    assert_eq!(
        decode(b"i9223372036854775807e").unwrap(),
        Value::Int(i64::MAX)
    );
    assert_eq!(decode(b"i+7e").unwrap(), Value::Int(7));
    assert_eq!(decode(b"i007e").unwrap(), Value::Int(7));
}

#[test]
fn what_follows_a_value_is_ignored() {
    assert_eq!(decode(b"i1ei2e").unwrap(), Value::Int(1));
}

#[test]
fn encoding_is_exact_and_sorted() {
    let mut d = Dict::new();
    d.insert(b"zeta".to_vec(), Value::Int(-3));
    d.insert(b"alpha".to_vec(), Value::Bytes(b"x".to_vec()));
    d.insert(b"al".to_vec(), Value::List(vec![]));
    d.insert(b"zeta".to_vec(), Value::Int(5));
    assert_eq!(d.len(), 3);
    assert_eq!(
        bencode_encode(&Value::Dict(d)),
        b"d2:alle5:alpha1:x4:zetai5ee".to_vec()
    );
}

#[test]
fn decoding_gives_back_what_was_encoded() {
    let data = b"d1:ali-1e0:3:abce1:bd1:ci0eee";
    let v = decode(data).unwrap();
    assert_eq!(bencode_encode(&v), data.to_vec());
    let copy = v.clone();
    assert_eq!(copy, v);
    assert_eq!(bencode_encode(&copy), data.to_vec());
}

#[test]
fn getters_look_into_dictionaries() {
    let v = decode(b"d1:i1:x1:li1ei2ee1:n1:ye").err();
    assert!(v.is_some());
    let v = decode(b"d1:bi7e1:lli1ei2ee1:s3:abce").unwrap();
    assert_eq!(v.get_int(b"b"), Some(7));
    assert_eq!(v.get_list(b"l").map(|l| l.len()), Some(2));
    assert_eq!(v.get_str(b"s"), Some("abc"));
    assert_eq!(v.get_bytes(b"s"), Some(b"abc".as_ref()));
    assert_eq!(v.get_int(b"s"), None);
    assert_eq!(v.get_bytes(b"b"), None);
}

#[test]
fn the_last_of_equal_keys_stands() {
    let v = decode(b"d1:ai1e1:ai2ee").unwrap();
    assert_eq!(v.get_int(b"a"), Some(2));
    assert_eq!(v.as_dict().unwrap().len(), 1);
    assert!(!v.as_dict().unwrap().is_empty());
}

#[test]
fn faults_of_integers_are_those_of_the_standard_parser() {
    for text in [
        "", "-", "+", "x", "1x", "-x", "9223372036854775808", "-9223372036854775809",
        "99999999999999999999x", "-99999999999999999999x", "+99999999999999999999",
    ] {
        let data = format!("i{text}e");
        let cause = text.parse::<i64>().unwrap_err();
        assert_eq!(
            decode(data.as_bytes()).unwrap_err().message(),
            format!("Bencode parse error: invalid integer '{text}': {cause}")
        );
    }
}

#[test]
fn a_length_beyond_every_input_is_quoted_in_full() {
    assert_eq!(
        decode(b"4294967297:a").unwrap_err(),
        Error::Bencode(BencodeError::LengthExceedsInput {
            len: 4294967297,
            offset: 11
        })
    );
}

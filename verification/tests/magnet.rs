use stormdrain::error::{Error, MagnetError};
use stormdrain::magnet::{info_hash_from_base32, parse_info_hash, LinkParams, MagnetLink};
use stormdrain::types::{InfoHash, PeerId};

const HEX_HASH: &str = "aabbccddaabbccddaabbccddaabbccddaabbccdd";

#[test]
fn parse_hex_info_hash() {
    let uri = format!("magnet:?xt=urn:btih:{HEX_HASH}");
    let m = MagnetLink::parse(&uri).unwrap();
    assert_eq!(m.info_hash.to_hex(), HEX_HASH);
    assert!(m.name.is_none());
    assert!(m.trackers.is_empty());
}

#[test]
fn parse_with_display_name_plus_decoding() {
    let uri = format!("magnet:?xt=urn:btih:{HEX_HASH}&dn=My+File");
    let m = MagnetLink::parse(&uri).unwrap();
    // percent_decode treats '+' as space.
    assert_eq!(m.name.as_deref(), Some("My File"));
}

#[test]
fn parse_with_display_name_percent_decoding() {
    let uri = format!("magnet:?xt=urn:btih:{HEX_HASH}&dn=My%20Torrent");
    let m = MagnetLink::parse(&uri).unwrap();
    assert_eq!(m.name.as_deref(), Some("My Torrent"));
}

#[test]
fn parse_with_single_tracker() {
    let uri = format!(
        "magnet:?xt=urn:btih:{HEX_HASH}&tr=http%3A%2F%2Ftracker.example.com%2Fannounce"
    );
    let m = MagnetLink::parse(&uri).unwrap();
    assert_eq!(m.trackers.len(), 1);
    assert_eq!(m.trackers[0], "http://tracker.example.com/announce");
}

#[test]
fn parse_with_multiple_trackers() {
    let uri = format!(
        "magnet:?xt=urn:btih:{HEX_HASH}&tr=http%3A%2F%2Fa.example%2Fann&tr=udp%3A%2F%2Fb.example%3A1337"
    );
    let m = MagnetLink::parse(&uri).unwrap();
    assert_eq!(m.trackers.len(), 2);
}

#[test]
fn parse_base32_info_hash_all_zeros() {
    // 32 'A' chars in RFC-4648 base32 = 20 zero bytes.
    let uri = "magnet:?xt=urn:btih:AAAAAAAAAAAAAAAAAAAAAAAAAAAAAAAA";
    let m = MagnetLink::parse(uri).unwrap();
    assert_eq!(m.info_hash.as_bytes(), &[0u8; 20]);
}

#[test]
fn error_missing_magnet_scheme() {
    assert!(MagnetLink::parse("http://example.com").is_err());
}

#[test]
fn error_missing_xt_parameter() {
    assert!(MagnetLink::parse("magnet:?dn=foo").is_err());
}

#[test]
fn error_invalid_hex_hash() {
    // Contains 'Z' which is not valid hex.
    let uri = "magnet:?xt=urn:btih:ZZZZZZZZZZZZZZZZZZZZZZZZZZZZZZZZZZZZZZZZ";
    assert!(MagnetLink::parse(uri).is_err());
}

#[test]
fn error_wrong_hash_length() {
    assert!(MagnetLink::parse("magnet:?xt=urn:btih:aabbcc").is_err());
}

#[test]
fn unknown_params_are_ignored() {
    let uri = format!("magnet:?xt=urn:btih:{HEX_HASH}&ws=http%3A%2F%2Fexample.com%2Fseed&xl=65536");
    let m = MagnetLink::parse(&uri).unwrap();
    // ws and xl are ignored; the parse should still succeed.
    assert_eq!(m.info_hash.to_hex(), HEX_HASH);
}

#[test]
fn magnet_errors_name_their_cause() {
    let fails = |uri: &str, e: MagnetError| {
        assert_eq!(
            MagnetLink::parse(uri).err().unwrap(),
            Error::InvalidMagnet(e)
        );
    };
    fails("http://example.com", MagnetError::MissingScheme);
    fails("magnet:?dn=foo", MagnetError::MissingHash);
    fails("magnet:?xt=urn:sha1:abc", MagnetError::MissingHash);
    fails(
        "magnet:?xt=urn:btih:ZZZZZZZZZZZZZZZZZZZZZZZZZZZZZZZZZZZZZZZZ",
        MagnetError::InvalidHex {
            cause: hex::decode("ZZ").unwrap_err().to_string(),
        },
    );
    fails(
        "magnet:?xt=urn:btih:11111111111111111111111111111111",
        MagnetError::InvalidBase32,
    );
    fails(
        "magnet:?xt=urn:btih:aabbcc",
        MagnetError::HashLength { len: 6 },
    );
    assert_eq!(
        info_hash_from_base32("AAAA").unwrap_err(),
        MagnetError::HashNotTwentyBytes
    );
}

#[test]
fn base32_is_read_in_either_case() {
    let upper = MagnetLink::parse("magnet:?xt=urn:btih:MFRGGZDFMZTWQ2LKNNWG23TPOBYXE43U").unwrap();
    let lower = MagnetLink::parse("magnet:?xt=urn:btih:mfrggzdfmztwq2lknnwg23tpobyxe43u").unwrap();
    assert_eq!(upper.info_hash.as_bytes(), b"abcdefghijklmnopqrst");
    assert_eq!(upper.info_hash, lower.info_hash);
}

#[test]
fn spaces_around_the_link_are_ignored() {
    let m = MagnetLink::parse(&format!("  magnet:?xt=urn:btih:{HEX_HASH}\n")).unwrap();
    assert_eq!(m.info_hash.to_hex(), HEX_HASH);
}

#[test]
fn the_last_name_stands_and_trackers_are_collected() {
    let m = MagnetLink::parse(&format!(
        "magnet:?dn=a&xt=urn:btih:{HEX_HASH}&tr=x&dn=b&tr=y&flag"
    ))
    .unwrap();
    assert_eq!(m.name.as_deref(), Some("b"));
    assert_eq!(m.trackers, vec!["x".to_string(), "y".to_string()]);
}

#[test]
fn a_broken_escape_is_left_as_it_is() {
    let m = MagnetLink::parse(&format!("magnet:?xt=urn:btih:{HEX_HASH}&dn=50%25%2zoff%4")).unwrap();
    assert_eq!(m.name.as_deref(), Some("50%%2zoff%4"));
}

#[test]
fn parameters_are_collected_one_by_one() {
    let mut p = LinkParams::new();
    assert!(p.add("dn", "name".to_string()).is_ok());
    assert!(p.add("xt", format!("urn:btih:{HEX_HASH}")).is_ok());
    assert_eq!(
        p.add("xt", "urn:btih:zz".to_string()),
        Err(MagnetError::HashLength { len: 2 })
    );
    let link = p.finish().unwrap();
    assert_eq!(link.info_hash.to_hex(), HEX_HASH);
    assert_eq!(
        LinkParams::new().finish().err().unwrap(),
        Error::InvalidMagnet(MagnetError::MissingHash)
    );
}

#[test]
fn what_was_percent_encoded_is_decoded() {
    let text = b"-SD0100- a+b%c/d&e=f";
    let encoded = PeerId(*text).url_encode();
    assert_eq!(encoded, "-SD0100-%20a%2bb%25c%2fd%26e%3df");
    let m = MagnetLink::parse(&format!("magnet:?xt=urn:btih:{HEX_HASH}&dn={encoded}")).unwrap();
    assert_eq!(m.name.unwrap().as_bytes(), text);
    let all = InfoHash(*text).url_encode();
    let m = MagnetLink::parse(&format!("magnet:?xt=urn:btih:{HEX_HASH}&dn={all}")).unwrap();
    assert_eq!(m.name.unwrap().as_bytes(), text);
}

#[test]
fn invalid_utf8_in_a_name_is_replaced() {
    let m = MagnetLink::parse(&format!("magnet:?xt=urn:btih:{HEX_HASH}&dn=a%ffb%c3%a9")).unwrap();
    assert_eq!(m.name.as_deref(), Some("a\u{fffd}b\u{e9}"));
}

#[test]
fn a_sign_starts_no_escape() {
    let m = MagnetLink::parse(&format!("magnet:?xt=urn:btih:{HEX_HASH}&dn=a%+5b%-5")).unwrap();
    assert_eq!(m.name.as_deref(), Some("a% 5b%-5"));
}

#[test]
fn hashes_are_read_in_either_case() {
    let h = InfoHash([
        0x00, 0x1f, 0x2e, 0x3d, 0x4c, 0x5b, 0x6a, 0x79, 0x88, 0x97, 0xa6, 0xb5, 0xc4, 0xd3, 0xe2,
        0xf1, 0xab, 0xcd, 0xef, 0xff,
    ]);
    let text = h.to_hex();
    assert_eq!(parse_info_hash(&text), Ok(h));
    assert_eq!(parse_info_hash(&text.to_ascii_uppercase()), Ok(h));
    for s in [
        "mfrggZDFMZTWQ2LKNNWG23TPOBYXE43u",
        "mfrggZDFMZTWQ2LKNNWG23TPOBYXE431",
    ] {
        assert_eq!(
            parse_info_hash(&s.to_ascii_lowercase()),
            parse_info_hash(&s.to_ascii_uppercase())
        );
    }
    assert!(parse_info_hash("mfrggZDFMZTWQ2LKNNWG23TPOBYXE43u").is_ok());
}

#[test]
fn a_whole_link_is_read_back() {
    let h = InfoHash(*b"\x00\x1f.=L[jy\x88\x97\xa6\xb5\xc4\xd3\xe2\xf1\xab\xcd\xef\xff");
    let encoded = |s: &str| {
        let mut out = String::new();
        for b in s.bytes() {
            if b.is_ascii_alphanumeric() || b"-._~".contains(&b) {
                out.push(b as char);
            } else {
                out.push_str(&format!("%{b:02x}"));
            }
        }
        out
    };
    let name = "Ünï & cö=de +1";
    let trackers = ["http://a.example/ann?x=1", "udp://b.example:1337"];
    for hash in [h.to_hex(), h.to_hex().to_ascii_uppercase()] {
        let uri = format!(
            "magnet:?xt=urn:btih:{hash}&dn={}&tr={}&tr={}",
            encoded(name),
            encoded(trackers[0]),
            encoded(trackers[1])
        );
        let m = MagnetLink::parse(&uri).unwrap();
        assert_eq!(m.info_hash, h);
        assert_eq!(m.name.as_deref(), Some(name));
        assert_eq!(m.trackers, trackers);
    }
}

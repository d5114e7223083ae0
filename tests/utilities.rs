use shine_core::base64url::{text_from_decoded, Base64UrlEncoder, EncodeError};
use shine_core::simple_error::SimpleError;
use shine_core::small_string_id::{SmallStringId, SmallStringIdError};
use shine_core::utils::ChangeTracked;
use std::str::FromStr;

#[test]
fn base64url_encodes_without_padding() {
    let enc = Base64UrlEncoder;
    assert_eq!(enc.encode(b"hello"), "aGVsbG8");
    assert_eq!(enc.encode(b""), "");
    assert_eq!(enc.encode(&[0xfb, 0xff]), "-_8");
    assert_eq!(enc.encode_str("hi?"), "aGk_");
}

#[test]
fn base64url_decodes() {
    let enc = Base64UrlEncoder;
    assert_eq!(enc.decode(b"aGVsbG8").ok().unwrap(), b"hello".to_vec());
    assert_eq!(enc.decode_str(b"aGk_").ok().unwrap(), "hi?");
    assert!(matches!(enc.decode(b"aGVsbG8="), Err(EncodeError::EncodedIdDecodeError(_))));
    assert!(matches!(enc.decode(b"a"), Err(EncodeError::EncodedIdDecodeError(_))));
    assert!(matches!(enc.decode_str(b"_w"), Err(EncodeError::EncodedIdDecodeUtf8Error(_))));
}

#[test]
fn decoded_bytes_become_text_only_when_utf8() {
    assert_eq!(text_from_decoded(b"abc".to_vec()).ok().unwrap(), "abc");
    assert!(matches!(text_from_decoded(vec![0xff]), Err(EncodeError::EncodedIdDecodeUtf8Error(_))));
}

#[test]
fn simple_error_keeps_its_message() {
    assert_eq!(SimpleError::new("boom").as_str(), "boom");
}

#[test]
fn small_string_id_round_trips() {
    let id = SmallStringId::<8>::parse("node").ok().unwrap();
    assert_eq!(id.as_str(), "node");
    let full = SmallStringId::<4>::from_str("abcd").ok().unwrap();
    assert_eq!(full.as_str(), "abcd");
    let empty = SmallStringId::<4>::default();
    assert_eq!(empty.as_str(), "");
    assert_eq!(SmallStringId::<4>::parse("").ok().unwrap(), empty);
    assert!(SmallStringId::<8>::parse("node") == Ok(id));
}

#[test]
fn small_string_id_rejects_long_text() {
    assert_eq!(SmallStringId::<3>::parse("abcd"), Err(SmallStringIdError::ParseErrorLen));
    // two bytes of one character
    assert_eq!(SmallStringId::<1>::parse("é"), Err(SmallStringIdError::ParseErrorLen));
    assert_eq!(SmallStringId::<2>::parse("é").ok().unwrap().as_str(), "é");
}

#[test]
fn small_string_id_stops_at_nul() {
    let id = SmallStringId::<8>::parse("ab\0cd").ok().unwrap();
    assert_eq!(id.as_str(), "ab");
}

#[test]
fn change_tracked_detects_changes() {
    let start = 5u32;
    let working = ChangeTracked::new(&start);
    assert!(!working.is_changed());
    assert_eq!(*working, 5);
    assert_eq!(working.changed(), None);

    let mut working = ChangeTracked::new(&start);
    *working.get_mut() = 7;
    assert!(working.is_changed());
    assert_eq!(*working.get(), 7);
    assert_eq!(working.changed(), Some(7));

    let mut working = ChangeTracked::new(&start);
    *working.get_mut() = 9;
    *working.get_mut() = 5;
    assert!(!working.is_changed());
}

#[test]
fn change_tracked_reports_only_changes() {
    let start = String::from("a");
    let mut seen = Vec::new();
    let mut working = ChangeTracked::new(&start);
    working.get_mut().push('b');
    let mut sink = |v: String| seen.push(v);
    working.map_change(&mut sink);
    ChangeTracked::new(&start).map_change(&mut sink);
    assert_eq!(seen, vec![String::from("ab")]);
}

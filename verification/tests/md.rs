use joplin_lite::decoder::md::{DecodedMd, DecodedMdBody, DecodedMdType};
use joplin_lite::error::JoplinError;

fn decode_error(s: &str, filename: &str) -> String {
    match DecodedMd::from_string(s, filename) {
        Err(JoplinError::Decode(m)) => m,
        Err(e) => panic!("unexpected error {:?}", e),
        Ok(_) => panic!("unexpected success"),
    }
}

#[test]
fn test_decode() {
    let md = DecodedMd::from_string(
        r"Hello, world!
This is my note

id: 51751e55e0f1be9c63b15aff2b3ee9f9
parent_id: ff2b800a09d1268748273a24017b99e6
unsupported_field: unsupported_value
type_: 1",
        "51751e55e0f1be9c63b15aff2b3ee9f9",
    );

    let md = md.unwrap();
    match md.body {
        DecodedMdBody::Unencrypted(s) => assert_eq!(s, "Hello, world!\nThis is my note"),
        other => panic!("unexpected body {:?}", other),
    }
}

#[test]
fn test_decode_encrypted() {
    let md = DecodedMd::from_string(
        r"id: 51751e55e0f1be9c63b15aff2b3ee9f9
encryption_cipher_text: JED_ENCRYPTED_BYTES
parent_id: ff2b800a09d1268748273a24017b99e6
encryption_applied: 1
type_: 1",
        "51751e55e0f1be9c63b15aff2b3ee9f9",
    );

    let md = md.unwrap();
    match md.body {
        DecodedMdBody::Encrypted(s) => assert_eq!(s, "JED_ENCRYPTED_BYTES"),
        other => panic!("unexpected body {:?}", other),
    }
}

#[test]
fn md_fields_are_decoded() {
    let md = DecodedMd::from_string(
        "Folder title\n\nid: abc\nparent_id: \ndeleted_time: 0\ntype_: 2\n",
        "abc",
    )
    .unwrap();
    assert_eq!(md.tp, DecodedMdType::Folder);
    assert_eq!(md.id, "abc");
    assert!(md.parent_id.is_none());
    assert!(md.deleted_time.is_none());
    match md.body {
        DecodedMdBody::Unencrypted(s) => assert_eq!(s, "Folder title"),
        other => panic!("unexpected body {:?}", other),
    }
}

#[test]
fn md_deleted_time_is_kept() {
    let md = DecodedMd::from_string("t\n\nid: a\ndeleted_time: 1710000000000\ntype_: 1", "a")
        .unwrap();
    assert_eq!(md.deleted_time.as_deref(), Some("1710000000000"));
    assert_eq!(md.tp, DecodedMdType::Note);
}

#[test]
fn md_crlf_lines_and_trimming() {
    let md = DecodedMd::from_string(
        "line one\r\nline two\r\n\r\n  id  :  x1 \r\nparent_id:\tp9\r\ntype_: +1\r\n",
        "x1",
    )
    .unwrap();
    assert_eq!(md.parent_id.as_deref(), Some("p9"));
    match md.body {
        DecodedMdBody::Unencrypted(s) => assert_eq!(s, "line one\nline two"),
        other => panic!("unexpected body {:?}", other),
    }
}

#[test]
fn md_body_keeps_inner_empty_lines() {
    let md = DecodedMd::from_string("a\n\nb\n\nid: q\ntype_: 1", "q").unwrap();
    match md.body {
        DecodedMdBody::Unencrypted(s) => assert_eq!(s, "a\n\nb"),
        other => panic!("unexpected body {:?}", other),
    }
}

#[test]
fn md_without_separator_has_empty_body() {
    let md = DecodedMd::from_string("id: q\ntype_: 1", "q").unwrap();
    match md.body {
        DecodedMdBody::Unencrypted(s) => assert_eq!(s, ""),
        other => panic!("unexpected body {:?}", other),
    }
}

#[test]
fn md_first_line_wins_for_repeated_property() {
    let md = DecodedMd::from_string("b\n\nid: q\nparent_id: first\nparent_id: second\ntype_: 1", "q")
        .unwrap();
    assert_eq!(md.parent_id.as_deref(), Some("first"));
}

#[test]
fn md_error_invalid_property_format() {
    assert_eq!(decode_error("body\n\nid q\ntype_: 1", "q"), "invalid property format");
}

#[test]
fn md_error_unsupported_type() {
    assert_eq!(decode_error("id: q\ntype_: 13", "q"), "unsupported md type: 13");
}

#[test]
fn md_error_bad_type() {
    assert_eq!(
        decode_error("id: q\ntype_: x", "q"),
        "failed to parse md type: invalid digit found in string"
    );
    assert_eq!(
        decode_error("id: q\ntype_:", "q"),
        "failed to parse md type: cannot parse integer from empty string"
    );
    assert_eq!(
        decode_error("id: q\ntype_: 4294967296", "q"),
        "failed to parse md type: number too large to fit in target type"
    );
    assert_eq!(
        decode_error("id: q\ntype_: +", "q"),
        "failed to parse md type: invalid digit found in string"
    );
    assert_eq!(
        decode_error("id: q\ntype_: -1", "q"),
        "failed to parse md type: invalid digit found in string"
    );
}

#[test]
fn md_type_parse_matches_std() {
    for text in ["0", "1", "2", "+2", "007", "4294967295", "4294967296", "", "+", "-0", "1 2", "٣"] {
        let item = format!("id: q\ntype_: {}", text);
        let ours = DecodedMd::from_string(&item, "q");
        match text.parse::<u32>() {
            Ok(1) | Ok(2) => assert!(ours.is_ok()),
            Ok(n) => {
                let expected = format!("unsupported md type: {}", n);
                match ours {
                    Err(JoplinError::Decode(m)) => assert_eq!(m, expected),
                    _ => panic!("expected an error for {:?}", text),
                }
            }
            Err(e) => {
                let expected = format!("failed to parse md type: {}", e);
                match ours {
                    Err(JoplinError::Decode(m)) => assert_eq!(m, expected),
                    _ => panic!("expected an error for {:?}", text),
                }
            }
        }
    }
}

#[test]
fn md_error_mismatched_id() {
    assert_eq!(decode_error("id: other\ntype_: 1", "q"), "mismatched id: other instead of q");
}

#[test]
fn md_error_missing_type_and_id() {
    assert_eq!(decode_error("id: q", "q"), "missing node type");
    assert_eq!(decode_error("type_: 1", "q"), "missing id");
}

#[test]
fn md_error_malformed_encryption() {
    assert_eq!(
        decode_error("id: q\nencryption_applied: 1\ntype_: 1", "q"),
        "malformed encryption: missing cipher text"
    );
    assert_eq!(
        decode_error("body\n\nid: q\nencryption_cipher_text: c\nencryption_applied: 1\ntype_: 1", "q"),
        "malformed encryption: unexpected body"
    );
}

#[test]
fn md_error_comes_from_the_last_bad_line_first() {
    assert_eq!(decode_error("id: q\nbad line\ntype_: 9", "q"), "unsupported md type: 9");
}

fn std_body(s: &str) -> String {
    let ls: Vec<&str> = s.lines().collect();
    let e = ls.iter().rposition(|l| l.is_empty()).unwrap();
    ls[..e].join("\n")
}

#[test]
fn md_body_matches_std_lines() {
    let bodies = [
        "plain",
        "with\r\ncrlf\r\nlines",
        "bare\rcarriage",
        "ends with cr\r",
        "trailing newline\n",
        "two\n\nparagraphs",
        "",
        "\u{3000}wide space\u{3000}",
        "emoji 🎉 and ünïcode",
    ];
    for body in bodies {
        let s = format!("{}\n\nid: q\nparent_id:\u{3000}p\u{2009}\ntype_: 1\r\n", body);
        let md = DecodedMd::from_string(&s, "q").unwrap();
        assert_eq!(md.parent_id.as_deref(), Some("p"));
        match md.body {
            DecodedMdBody::Unencrypted(b) => assert_eq!(b, std_body(&s)),
            other => panic!("unexpected body {:?}", other),
        }
    }
}

#[test]
fn md_unknown_property_is_ignored() {
    let base = "Body line\n\nid: abc\nparent_id: p1\ntype_: 1";
    let with_extra = "Body line\n\nid: abc\nuser_updated_time: 2024\nparent_id: p1\ntype_: 1";
    let a = DecodedMd::from_string(base, "abc").unwrap();
    let b = DecodedMd::from_string(with_extra, "abc").unwrap();
    assert_eq!(a.tp, b.tp);
    assert_eq!(a.id, b.id);
    assert_eq!(a.parent_id, b.parent_id);
    match (a.body, b.body) {
        (DecodedMdBody::Unencrypted(x), DecodedMdBody::Unencrypted(y)) => {
            assert_eq!(x, "Body line");
            assert_eq!(x, y);
        }
        _ => panic!("expected plain bodies"),
    }
    let bad = "\nid: abc\ntype_: 7";
    let bad_extra = "\nid: abc\nsource_url: x:y\ntype_: 7";
    assert_eq!(decode_error(bad, "abc"), decode_error(bad_extra, "abc"));
}

#[test]
fn md_note_body_comes_back_exactly() {
    for body in ["", "one line", "first\n\nthird\n", "trailing\n", "\n\nleading blanks", "a: b\nc"] {
        let text = format!("{}\n\nid: {}\ntype_: 1", body, "f00d");
        let md = DecodedMd::from_string(&text, "f00d").unwrap();
        match md.body {
            DecodedMdBody::Unencrypted(b) => assert_eq!(b, body),
            other => panic!("unexpected body {:?}", other),
        }
        assert_eq!(md.id, "f00d");
        assert_eq!(md.tp, DecodedMdType::Note);
        assert!(md.parent_id.is_none());
        assert!(md.deleted_time.is_none());
    }
}

#[test]
fn md_deleted_time_line_changes_only_deletion() {
    let base = "Body\n\nid: abc\nparent_id: p\ntype_: 2";
    let marked = "Body\n\nid: abc\ndeleted_time: 1700\nparent_id: p\ntype_: 2";
    let a = DecodedMd::from_string(base, "abc").unwrap();
    let b = DecodedMd::from_string(marked, "abc").unwrap();
    assert_eq!(a.tp, b.tp);
    assert_eq!(a.id, b.id);
    assert_eq!(a.parent_id, b.parent_id);
    assert!(a.deleted_time.is_none());
    assert_eq!(b.deleted_time.as_deref(), Some("1700"));
    match (a.body, b.body) {
        (DecodedMdBody::Unencrypted(x), DecodedMdBody::Unencrypted(y)) => assert_eq!(x, y),
        _ => panic!("expected plain bodies"),
    }
}

use joplin_lite::decoder::md::{DecodedMd, DecodedMdBody, DecodedMdType};
use joplin_lite::decoder::{decode_string, DecodedNodeType};
use joplin_lite::error::JoplinError;

fn node_error(s: &str, stem: &str) -> String {
    match decode_string(s, stem) {
        Err(JoplinError::Decode(m)) => m,
        Err(e) => panic!("unexpected error {:?}", e),
        Ok(_) => panic!("unexpected success"),
    }
}

#[test]
fn node_keeps_other_properties() {
    let node = decode_string(
        "Title\nbody\n\nid: n1\nparent_id: p1\nupdated_time: 2024\ntitle_x: y\nupdated_time: 2023\ntype_: 2",
        "n1",
    )
    .unwrap();
    assert_eq!(node.tp, DecodedNodeType::Folder);
    assert_eq!(node.contents, "Title\nbody");
    assert_eq!(node.id, "n1");
    assert_eq!(node.parent_id.as_deref(), Some("p1"));
    assert_eq!(
        node.props,
        vec![
            ("updated_time".to_string(), "2024".to_string()),
            ("title_x".to_string(), "y".to_string()),
        ]
    );
}

#[test]
fn node_encrypted_contents() {
    let node = decode_string("id: n1\nencryption_applied: 1\ntype_: 1", "n1").unwrap();
    assert_eq!(node.contents, "<ENCRYPTED>");
    assert_eq!(node.tp, DecodedNodeType::Note);
    assert!(node.props.is_empty());
}

#[test]
fn node_errors() {
    assert_eq!(node_error("x\n\nid: n\nencryption_applied: 1\ntype_: 1", "n"), "malformed encryption");
    assert_eq!(node_error("id: m\ntype_: 1", "n"), "mismatched node id: m");
    assert_eq!(node_error("id: n\ntype_: 3", "n"), "unsupported node type: 3");
    assert_eq!(
        node_error("id: n\ntype_: one", "n"),
        "failed to parse node type: invalid digit found in string"
    );
    assert_eq!(node_error("id: n\nno colon", "n"), "invalid property format");
    assert_eq!(node_error("id: n", "n"), "missing node type");
    assert_eq!(node_error("type_: 2", "n"), "missing id");
}

#[test]
fn node_and_md_decoders_agree() {
    let inputs = [
        "Title\n\nsecond\n\nid: n1\nparent_id: p1\ndeleted_time: 5\nsource: x\ntype_: 2",
        "plain\n\nid: n1\nencryption_cipher_text: abc\ntype_: 1",
        "id: n1\ntype_: 1",
        "body\n\nid: n2\ntype_: 1",
        "body\n\nid: n1\ntype_: 9",
        "body\n\nno colon here",
        "\n\nid: n1",
    ];
    for s in inputs {
        let node = decode_string(s, "n1");
        let md = DecodedMd::from_string(s, "n1");
        assert_eq!(node.is_ok(), md.is_ok(), "{}", s);
        if let (Ok(n), Ok(m)) = (node, md) {
            match m.body {
                DecodedMdBody::Unencrypted(b) => assert_eq!(n.contents, b),
                _ => panic!("expected a plain body"),
            }
            assert_eq!(n.id, m.id);
            assert_eq!(n.parent_id, m.parent_id);
            let tp = match m.tp {
                DecodedMdType::Note => DecodedNodeType::Note,
                DecodedMdType::Folder => DecodedNodeType::Folder,
            };
            assert_eq!(n.tp, tp);
        }
    }
}

use joplin_lite::database::note::JoplinNote;
use joplin_lite::database::notebook::JoplinNotebook;
use joplin_lite::database::outline::first_line_of;
use joplin_lite::database::{Cache, JoplinDatabase};
use joplin_lite::decoder::json::DecodedMasterKey;
use joplin_lite::decoder::md::{DecodedMd, DecodedMdBody, DecodedMdType};
use joplin_lite::encryption::EncryptedContent;
use joplin_lite::error::JoplinError;
use joplin_lite::password::{JoplinPasswordProvider, PasswordRequests};

struct NoPasswords;

impl JoplinPasswordProvider for NoPasswords {
    fn requests(&self) -> PasswordRequests {
        unreachable!()
    }

    fn get_password(&mut self, _key_id: &str) -> Result<String, JoplinError> {
        Err(JoplinError::Password(String::from("none")))
    }
}

fn item(id: &str, parent: Option<&str>, tp: DecodedMdType, body: &str) -> DecodedMd {
    DecodedMd {
        body: DecodedMdBody::Unencrypted(body.to_string()),
        tp,
        id: id.to_string(),
        parent_id: parent.map(|p| p.to_string()),
        deleted_time: None,
    }
}

fn titles(notebooks: &Vec<JoplinNotebook>) -> Vec<String> {
    notebooks.iter().map(|n| n.get_title().to_string()).collect()
}

#[test]
fn database_builds_hierarchy_in_order() {
    let mds = vec![
        item("n2", Some("f1"), DecodedMdType::Note, "second note"),
        item("f1", None, DecodedMdType::Folder, "Work"),
        item("f2", Some("f1"), DecodedMdType::Folder, "Projects"),
        item("n1", Some("f2"), DecodedMdType::Note, "deep note"),
        item("f3", None, DecodedMdType::Folder, "Home"),
        item("n3", Some("f1"), DecodedMdType::Note, "third note"),
        item("n4", None, DecodedMdType::Note, "loose note"),
        DecodedMd {
            body: DecodedMdBody::Encrypted("CIPHER".to_string()),
            tp: DecodedMdType::Note,
            id: "n5".to_string(),
            parent_id: Some("f3".to_string()),
            deleted_time: None,
        },
    ];
    let db = JoplinDatabase::from_decoded(mds, vec![], NoPasswords).unwrap();
    let top = db.get_notebooks();
    assert_eq!(titles(top), vec!["Work", "Home"]);
    let work = &top[0];
    assert_eq!(titles(work.get_notebooks()), vec!["Projects"]);
    let notes: Vec<&str> = work.get_notes().iter().map(|n| n.get_contents()).collect();
    assert_eq!(notes, vec!["second note", "third note"]);
    let projects = &work.get_notebooks()[0];
    assert_eq!(projects.get_notes()[0].get_contents(), "deep note");
    assert!(projects.get_notebooks().is_empty());
    let home = &top[1];
    assert_eq!(home.get_notes()[0].get_contents(), "<ENCRYPTED>");
}

#[test]
fn database_skips_deleted_items() {
    let mut gone = item("f9", None, DecodedMdType::Folder, "Trash");
    gone.deleted_time = Some("1700000000000".to_string());
    let mut gone_note = item("n9", Some("f1"), DecodedMdType::Note, "deleted");
    gone_note.deleted_time = Some("1".to_string());
    let mds = vec![
        item("f1", None, DecodedMdType::Folder, "Kept"),
        gone,
        gone_note,
        item("n1", Some("f9"), DecodedMdType::Note, "inside trash"),
    ];
    let db = JoplinDatabase::from_decoded(mds, vec![], NoPasswords).unwrap();
    assert_eq!(titles(db.get_notebooks()), vec!["Kept"]);
    assert!(db.get_notebooks()[0].get_notes().is_empty());
}

#[test]
fn database_reports_first_bad_key() {
    let keys = vec![
        (
            DecodedMasterKey { encryption_method: 7, id: "k1".to_string(), content: String::new() },
            Err(serde_json::from_str::<u32>("x").unwrap_err()),
        ),
    ];
    match JoplinDatabase::from_decoded(vec![], keys, NoPasswords) {
        Err(JoplinError::Encryption(m)) => assert_eq!(m, "unsupported encryption type 7"),
        _ => panic!("expected an encryption error"),
    }
}

#[test]
fn database_reports_json_error_of_key() {
    let keys = vec![(
        DecodedMasterKey { encryption_method: 8, id: "k1".to_string(), content: "{".to_string() },
        Err(serde_json::from_str::<u32>("{").unwrap_err()),
    )];
    match JoplinDatabase::from_decoded(vec![], keys, NoPasswords) {
        Err(JoplinError::SerdeJson(_)) => {}
        _ => panic!("expected a JSON error"),
    }
}

#[test]
fn database_reports_bad_base64_of_key() {
    let keys = vec![(
        DecodedMasterKey { encryption_method: 8, id: "k1".to_string(), content: String::new() },
        Ok(EncryptedContent { salt: "!!".to_string(), iv: String::new(), ct: String::new() }),
    )];
    match JoplinDatabase::from_decoded(vec![], keys, NoPasswords) {
        Err(JoplinError::Base64(_)) => {}
        _ => panic!("expected a Base64 error"),
    }
}

#[test]
fn cache_groups_by_parent() {
    let mut cache = Cache::new();
    let none: Option<String> = None;
    let f1 = Some("f1".to_string());
    cache.get_children_mut(&f1).push(item("a", Some("f1"), DecodedMdType::Note, "a"));
    cache.get_children_mut(&none).push(item("f1", None, DecodedMdType::Folder, "F"));
    cache.get_children_mut(&f1).push(item("b", Some("f1"), DecodedMdType::Note, "b"));
    assert_eq!(cache.num_parents(), 2);
    let ids: Vec<&str> = cache.get_children(&f1).iter().map(|d| d.id.as_str()).collect();
    assert_eq!(ids, vec!["a", "b"]);
    assert!(cache.get_children(&Some("zz".to_string())).is_empty());
    let folder = &cache.get_children(&none)[0];
    let nb = JoplinNotebook::from_md(folder, &cache).unwrap();
    assert_eq!(nb.get_title(), "F");
    assert_eq!(nb.get_notes().len(), 2);
    assert!(JoplinNote::from_md(folder).is_none());
}

#[test]
fn self_parented_folder_is_cut_at_depth() {
    let mds = vec![
        item("x", None, DecodedMdType::Folder, "Top"),
        item("x", Some("x"), DecodedMdType::Folder, "Loop"),
    ];
    let db = JoplinDatabase::from_decoded(mds, vec![], NoPasswords).unwrap();
    let top = db.get_notebooks();
    assert_eq!(titles(top), vec!["Top"]);
    let mut depth = 0;
    let mut level = &top[0];
    while let Some(next) = level.get_notebooks().first() {
        depth += 1;
        level = next;
    }
    assert_eq!(depth, 2);
}

#[test]
fn database_outline_lists_notebooks_indented() {
    let mds = vec![
        item("f1", None, DecodedMdType::Folder, "Work"),
        item("n1", Some("f1"), DecodedMdType::Note, "Plan\r\nsecond line"),
        item("f2", Some("f1"), DecodedMdType::Folder, "Projects"),
        item("n2", Some("f2"), DecodedMdType::Note, ""),
        item("n3", Some("f2"), DecodedMdType::Note, "\nafter an empty line"),
        item("f3", None, DecodedMdType::Folder, "Home"),
    ];
    let db = JoplinDatabase::from_decoded(mds, vec![], NoPasswords).unwrap();
    assert_eq!(
        db.outline(),
        vec![
            "  Work:",
            "    Projects:",
            "      ",
            "      ",
            "    Plan",
            "  Home:",
        ]
    );
}

#[test]
fn first_line_matches_std() {
    for s in ["", "one", "one\ntwo", "one\r\ntwo", "\n", "\r\n", "x\r", "  spaced  \nrest"] {
        assert_eq!(first_line_of(s), s.lines().next().unwrap_or(""));
    }
}

fn same_notebook(a: &JoplinNotebook, b: &JoplinNotebook) -> bool {
    a.get_title() == b.get_title()
        && a.get_notes().len() == b.get_notes().len()
        && a.get_notes().iter().zip(b.get_notes()).all(|(x, y)| x.get_contents() == y.get_contents())
        && a.get_notebooks().len() == b.get_notebooks().len()
        && a.get_notebooks().iter().zip(b.get_notebooks()).all(|(x, y)| same_notebook(x, y))
}

#[test]
fn sub_notebook_is_its_folders_own_notebook() {
    let mut cache = Cache::new();
    let items = vec![
        item("f1", None, DecodedMdType::Folder, "Top"),
        item("f2", Some("f1"), DecodedMdType::Folder, "Middle"),
        item("n0", Some("f1"), DecodedMdType::Note, "top note"),
        item("f3", Some("f2"), DecodedMdType::Folder, "Bottom"),
        item("n1", Some("f3"), DecodedMdType::Note, "deep note"),
        item("f4", Some("f2"), DecodedMdType::Folder, "Side"),
    ];
    for d in items {
        let parent = d.parent_id.clone();
        cache.get_children_mut(&parent).push(d);
    }
    let top = JoplinNotebook::from_md(&cache.get_children(&None)[0], &cache).unwrap();
    let middle_item = &cache.get_children(&Some("f1".to_string()))[0];
    let middle = JoplinNotebook::from_md(middle_item, &cache).unwrap();
    assert_eq!(top.get_notebooks().len(), 1);
    assert!(same_notebook(&top.get_notebooks()[0], &middle));
    assert_eq!(titles(middle.get_notebooks()), vec!["Bottom", "Side"]);
    let bottom_item = &cache.get_children(&Some("f2".to_string()))[0];
    let bottom = JoplinNotebook::from_md(bottom_item, &cache).unwrap();
    assert!(same_notebook(&middle.get_notebooks()[0], &bottom));
    assert_eq!(bottom.get_notes()[0].get_contents(), "deep note");
}

//! Notes.
use std::sync::Arc;
use vstd::prelude::*;

use crate::decoder::md::{
    decode_md, lemma_body_read_back, DecodedMd, DecodedMdBody, DecodedMdType, MdBodyView, MdView,
};
use crate::text::{has_no_cr, lines};

verus! {

/// The text shown for a body: the body itself, or a marker where it is encrypted.
pub open spec fn body_text(b: MdBodyView) -> Seq<char> {
    match b {
        MdBodyView::Unencrypted(s) => s,
        MdBodyView::Encrypted(_) => "<ENCRYPTED>"@,
    }
}

/// The contents of the note that an item is, if it is a note that is not deleted.
pub open spec fn note_of(d: MdView) -> Option<Seq<char>> {
    if d.tp == DecodedMdType::Note && d.deleted_time is None {
        Some(body_text(d.body))
    } else {
        None
    }
}

/// A note that is not deleted holds the whole text of its item, or the
/// marker `<ENCRYPTED>` where the item is encrypted; any other item is no
/// note.
pub proof fn lemma_note_contents(d: MdView)
    ensures
        d.tp == DecodedMdType::Note && d.deleted_time is None ==> match d.body {
            MdBodyView::Unencrypted(t) => note_of(d) == Some(t),
            MdBodyView::Encrypted(_) => note_of(d) == Some("<ENCRYPTED>"@),
        },
        !(d.tp == DecodedMdType::Note && d.deleted_time is None) ==> note_of(d) is None,
{
}

/// The note made of a decoded item holds the whole text that was written
/// above the item's properties, every line of it.
pub proof fn lemma_decoded_note_contents(body: Seq<char>, props: Seq<char>, filename: Seq<char>)
    requires
        has_no_cr(body),
        forall|i: int| 0 <= i < lines(props).len() ==> (#[trigger] lines(props)[i]).len() > 0,
    ensures
        decode_md(body + seq!['\n', '\n'] + props, filename) matches Ok(m) ==> (m.tp
            == DecodedMdType::Note && m.deleted_time is None ==> note_of(m) == Some(body)),
{
    lemma_body_read_back(body, props, filename);
}

/// The shown text of a body.
pub fn body_string(b: &DecodedMdBody) -> (res: String)
    ensures
        res@ == body_text(b@),
{
    match b {
        DecodedMdBody::Unencrypted(s) => s.clone(),
        DecodedMdBody::Encrypted(_) => String::from_str("<ENCRYPTED>"),
    }
}

/// A note.
pub struct JoplinNote {
    contents: String,
}

impl View for JoplinNote {
    type V = Seq<char>;

    closed spec fn view(&self) -> Seq<char> {
        self.contents@
    }
}

impl JoplinNote {
    /// The note that `d` is, if it is a note that is not deleted.
    pub fn from_md(d: &DecodedMd) -> (res: Option<Arc<JoplinNote>>)
        ensures
            match res {
                Some(n) => note_of(d@) == Some(n@),
                None => note_of(d@) is None,
            },
    {
        if d.tp == DecodedMdType::Note && d.deleted_time.is_none() {
            Some(Arc::new(JoplinNote { contents: body_string(&d.body) }))
        } else {
            None
        }
    }

    /// The text of the note.
    pub fn get_contents(&self) -> (res: &str)
        ensures
            res@ == self@,
    {
        self.contents.as_str()
    }
}

} // verus!

//! Decoding of Joplin `.md` items: a body, an empty line, then one
//! `key: value` property per line.
use vstd::prelude::*;

use crate::error::{decode_error, JoplinError};
use crate::text::{
    opt_range_view, opt_range_within,
    decimal, find_in_range, has_no_cr, int_error_message, int_error_text, join, join_ranges,
    lemma_join_pieces, lemma_lines_after, line_ranges, lines, parse_u32, parse_u32_range, pieces,
    push_decimal, range_eq_chars, lemma_find_char_at, lemma_find_char_none, parse_digits, trim, trim_start, range_eq_str, range_views, ranges_within, split_property,
    str_chars, string_from_range, trim_range, IntParseError,
};

verus! {

/// What an item is.
#[derive(PartialEq, Eq, Structural, Clone, Copy, Debug)]
pub enum DecodedMdType {
    Note,
    Folder,
}

/// The body of an item: its text, or the cipher text it was encrypted to.
#[derive(Debug)]
pub enum DecodedMdBody {
    Unencrypted(String),
    Encrypted(String),
}

/// A decoded item.
pub struct DecodedMd {
    pub body: DecodedMdBody,
    pub tp: DecodedMdType,
    pub id: String,
    pub parent_id: Option<String>,
    pub deleted_time: Option<String>,
}

/// The body as text.
pub enum MdBodyView {
    Unencrypted(Seq<char>),
    Encrypted(Seq<char>),
}

/// A decoded item as text.
pub struct MdView {
    pub body: MdBodyView,
    pub tp: DecodedMdType,
    pub id: Seq<char>,
    pub parent_id: Option<Seq<char>>,
    pub deleted_time: Option<Seq<char>>,
}

pub open spec fn opt_string_view(o: Option<String>) -> Option<Seq<char>> {
    match o {
        Some(s) => Some(s@),
        None => None,
    }
}

impl View for DecodedMdBody {
    type V = MdBodyView;

    open spec fn view(&self) -> MdBodyView {
        match self {
            DecodedMdBody::Unencrypted(s) => MdBodyView::Unencrypted(s@),
            DecodedMdBody::Encrypted(s) => MdBodyView::Encrypted(s@),
        }
    }
}

impl View for DecodedMd {
    type V = MdView;

    open spec fn view(&self) -> MdView {
        MdView {
            body: self.body@,
            tp: self.tp,
            id: self.id@,
            parent_id: opt_string_view(self.parent_id),
            deleted_time: opt_string_view(self.deleted_time),
        }
    }
}

/// The properties read so far.
pub struct MdProps {
    pub tp: Option<DecodedMdType>,
    pub id: Option<Seq<char>>,
    pub parent_id: Option<Seq<char>>,
    pub encryption_applied: bool,
    pub cipher_text: Option<Seq<char>>,
    pub deleted_time: Option<Seq<char>>,
}

/// Why an item does not decode.
pub enum MdDecodeError {
    InvalidPropertyFormat,
    UnsupportedType(u32),
    BadType(IntParseError),
    MismatchedId(Seq<char>),
    MissingType,
    MissingId,
    MissingCipherText,
    UnexpectedBody,
}

/// The message that the error carries, for an item in file `filename`.
pub open spec fn md_error_message(e: MdDecodeError, filename: Seq<char>) -> Seq<char> {
    match e {
        MdDecodeError::InvalidPropertyFormat => "invalid property format"@,
        MdDecodeError::UnsupportedType(n) => "unsupported md type: "@ + decimal(n as nat),
        MdDecodeError::BadType(k) => "failed to parse md type: "@ + int_error_message(k),
        MdDecodeError::MismatchedId(v) => "mismatched id: "@ + v + " instead of "@ + filename,
        MdDecodeError::MissingType => "missing node type"@,
        MdDecodeError::MissingId => "missing id"@,
        MdDecodeError::MissingCipherText => "malformed encryption: missing cipher text"@,
        MdDecodeError::UnexpectedBody => "malformed encryption: unexpected body"@,
    }
}

/// Whether `res` is the value or the error that `spec` describes.
pub open spec fn md_result_matches(
    res: Result<DecodedMd, JoplinError>,
    spec: Result<MdView, MdDecodeError>,
    filename: Seq<char>,
) -> bool {
    match (res, spec) {
        (Ok(d), Ok(m)) => d@ == m,
        (Err(JoplinError::Decode(msg)), Err(e)) => msg@ == md_error_message(e, filename),
        _ => false,
    }
}

pub open spec fn md_initial() -> MdProps {
    MdProps {
        tp: None,
        id: None,
        parent_id: None,
        encryption_applied: false,
        cipher_text: None,
        deleted_time: None,
    }
}

/// The effect of one property on what has been read.
pub open spec fn md_apply_property(
    st: MdProps,
    key: Seq<char>,
    value: Seq<char>,
    filename: Seq<char>,
) -> Result<MdProps, MdDecodeError> {
    if key == "type_"@ {
        match parse_u32(value) {
            Ok(n) => if n == 1 {
                Ok(MdProps { tp: Some(DecodedMdType::Note), ..st })
            } else if n == 2 {
                Ok(MdProps { tp: Some(DecodedMdType::Folder), ..st })
            } else {
                Err(MdDecodeError::UnsupportedType(n))
            },
            Err(k) => Err(MdDecodeError::BadType(k)),
        }
    } else if key == "id"@ {
        if value == filename {
            Ok(MdProps { id: Some(value), ..st })
        } else {
            Err(MdDecodeError::MismatchedId(value))
        }
    } else if key == "parent_id"@ {
        if value.len() > 0 {
            Ok(MdProps { parent_id: Some(value), ..st })
        } else {
            Ok(st)
        }
    } else if key == "encryption_applied"@ {
        if value == "1"@ {
            Ok(MdProps { encryption_applied: true, ..st })
        } else {
            Ok(st)
        }
    } else if key == "encryption_cipher_text"@ {
        if value.len() > 0 {
            Ok(MdProps { cipher_text: Some(value), ..st })
        } else {
            Ok(st)
        }
    } else if key == "deleted_time"@ {
        if value.len() > 0 && value != "0"@ {
            Ok(MdProps { deleted_time: Some(value), ..st })
        } else {
            Ok(st)
        }
    } else {
        Ok(st)
    }
}

/// The effect of one property line.
pub open spec fn md_step(st: MdProps, line: Seq<char>, filename: Seq<char>) -> Result<
    MdProps,
    MdDecodeError,
> {
    match split_property(line) {
        None => Err(MdDecodeError::InvalidPropertyFormat),
        Some((key, value)) => md_apply_property(st, key, value, filename),
    }
}

/// The item made of the properties read and the body lines.
pub open spec fn md_finish(st: MdProps, body: Seq<Seq<char>>) -> Result<MdView, MdDecodeError> {
    match st.tp {
        None => Err(MdDecodeError::MissingType),
        Some(tp) => match st.id {
            None => Err(MdDecodeError::MissingId),
            Some(id) => {
                if st.encryption_applied {
                    match st.cipher_text {
                        None => Err(MdDecodeError::MissingCipherText),
                        Some(c) => if body.len() > 0 {
                            Err(MdDecodeError::UnexpectedBody)
                        } else {
                            Ok(
                                MdView {
                                    body: MdBodyView::Encrypted(c),
                                    tp,
                                    id,
                                    parent_id: st.parent_id,
                                    deleted_time: st.deleted_time,
                                },
                            )
                        },
                    }
                } else {
                    Ok(
                        MdView {
                            body: MdBodyView::Unencrypted(join(body, '\n')),
                            tp,
                            id,
                            parent_id: st.parent_id,
                            deleted_time: st.deleted_time,
                        },
                    )
                }
            },
        },
    }
}

/// The lines read from the last one up: properties until an empty line,
/// and everything above that empty line is the body.
pub open spec fn md_scan(ls: Seq<Seq<char>>, st: MdProps, filename: Seq<char>) -> Result<
    MdView,
    MdDecodeError,
>
    decreases ls.len(),
{
    if ls.len() == 0 {
        md_finish(st, seq![])
    } else if ls.last().len() == 0 {
        md_finish(st, ls.drop_last())
    } else {
        match md_step(st, ls.last(), filename) {
            Err(e) => Err(e),
            Ok(next) => md_scan(ls.drop_last(), next, filename),
        }
    }
}

/// The item that the text `s` of file `filename` decodes to.
pub open spec fn decode_md(s: Seq<char>, filename: Seq<char>) -> Result<MdView, MdDecodeError> {
    md_scan(lines(s), md_initial(), filename)
}

/// Below an empty line every line is a property: the lines above it, of
/// which there is at least one, are the body.
proof fn lemma_scan_to_separator(
    above: Seq<Seq<char>>,
    props: Seq<Seq<char>>,
    st: MdProps,
    filename: Seq<char>,
)
    requires
        above.len() > 0,
        forall|i: int| 0 <= i < props.len() ==> (#[trigger] props[i]).len() > 0,
    ensures
        md_scan(above + seq![Seq::<char>::empty()] + props, st, filename) matches Ok(m)
            ==> m.body == MdBodyView::Unencrypted(join(above, '\n')),
    decreases props.len(),
{
    let ls = above + seq![Seq::<char>::empty()] + props;
    if props.len() == 0 {
        assert(ls.drop_last() =~= above);
    } else {
        assert(ls.last() == props.last());
        assert(ls.drop_last() =~= above + seq![Seq::<char>::empty()] + props.drop_last());
        match md_step(st, props.last(), filename) {
            Ok(next) => {
                lemma_scan_to_separator(above, props.drop_last(), next, filename);
            },
            Err(_) => {},
        }
    }
}

/// Text written above an empty line that property lines follow is read
/// back as the body of the item.
pub proof fn lemma_body_read_back(body: Seq<char>, props: Seq<char>, filename: Seq<char>)
    requires
        has_no_cr(body),
        forall|i: int| 0 <= i < lines(props).len() ==> (#[trigger] lines(props)[i]).len() > 0,
    ensures
        decode_md(body + seq!['\n', '\n'] + props, filename) matches Ok(m) ==> m.body
            == MdBodyView::Unencrypted(body),
{
    let rest = seq!['\n'] + props;
    assert(body + seq!['\n', '\n'] + props =~= body + seq!['\n'] + rest);
    lemma_lines_after(body, rest);
    assert(Seq::<char>::empty() + seq!['\n'] + props =~= rest);
    lemma_lines_after(Seq::<char>::empty(), props);
    assert(pieces(Seq::<char>::empty()) == seq![Seq::<char>::empty()]);
    assert(lines(body + seq!['\n', '\n'] + props) =~= pieces(body) + seq![Seq::<char>::empty()]
        + lines(props));
    lemma_join_pieces(body);
    lemma_scan_to_separator(pieces(body), lines(props), md_initial(), filename);
}

/// A text followed by an empty line, an `id` line that names the file and
/// a `type_: 1` line decodes to a note whose body is that text, as it was
/// written.
pub proof fn lemma_note_decodes(body: Seq<char>, filename: Seq<char>)
    requires
        has_no_cr(body),
        forall|i: int| 0 <= i < filename.len() ==> filename[i] != '\n' && filename[i] != '\r',
        trim(filename) == filename,
    ensures
        decode_md(body + "\n\nid: "@ + filename + "\ntype_: 1"@, filename) == Ok::<
            MdView,
            MdDecodeError,
        >(
            MdView {
                body: MdBodyView::Unencrypted(body),
                tp: DecodedMdType::Note,
                id: filename,
                parent_id: None,
                deleted_time: None,
            },
        ),
{
    reveal_strlit("\n\nid: ");
    reveal_strlit("\ntype_: 1");
    let l1 = seq!['i', 'd', ':', ' '] + filename;
    let l2 = seq!['t', 'y', 'p', 'e', '_', ':', ' ', '1'];
    let props = l1 + seq!['\n'] + l2;
    let s = body + "\n\nid: "@ + filename + "\ntype_: 1"@;
    assert(s =~= body + seq!['\n'] + (seq!['\n'] + props));
    lemma_lines_after(body, seq!['\n'] + props);
    assert(Seq::<char>::empty() + seq!['\n'] + props =~= seq!['\n'] + props);
    lemma_lines_after(Seq::<char>::empty(), props);
    assert(pieces(Seq::<char>::empty()) == seq![Seq::<char>::empty()]);
    assert forall|k: int| 0 <= k < l1.len() implies l1[k] != '\r' && l1[k] != '\n' by {
        if k >= 4 {
            assert(l1[k] == filename[k - 4]);
        }
    }
    lemma_lines_after(l1, l2);
    lemma_find_char_none(l1, '\n');
    assert(pieces(l1) == seq![l1]);
    lemma_find_char_none(l2, '\n');
    assert(lines(l2) == seq![l2]);
    let ls = pieces(body) + seq![Seq::<char>::empty()] + seq![l1, l2];
    assert(lines(s) =~= ls);
    // `type_: 1`
    lemma_find_char_at(l2, ':', 5);
    assert(l2.take(5) =~= seq!['t', 'y', 'p', 'e', '_']);
    assert(l2.skip(6) =~= seq![' ', '1']);
    assert(seq![' ', '1'].drop_first() =~= seq!['1']);
    assert(trim(seq![' ', '1']) == seq!['1']) by {
        reveal_with_fuel(trim_start, 2);
    }
    assert(split_property(l2) == Some((seq!['t', 'y', 'p', 'e', '_'], seq!['1'])));
    assert(seq!['1'].drop_first() =~= Seq::<char>::empty());
    assert(parse_u32(seq!['1']) == Ok::<u32, IntParseError>(1)) by {
        reveal_with_fuel(parse_digits, 2);
    }
    assert(seq!['t', 'y', 'p', 'e', '_'] =~= "type_"@) by {
        reveal_strlit("type_");
    }
    let st1 = MdProps { tp: Some(DecodedMdType::Note), ..md_initial() };
    assert(md_step(md_initial(), l2, filename) == Ok::<MdProps, MdDecodeError>(st1));
    // `id: <filename>`
    lemma_find_char_at(l1, ':', 2);
    assert(l1.take(2) =~= seq!['i', 'd']);
    assert(seq!['i', 'd'] =~= "id"@) by {
        reveal_strlit("id");
    }
    assert(l1.skip(3) =~= seq![' '] + filename);
    assert((seq![' '] + filename).drop_first() =~= filename);
    assert(trim_start(seq![' '] + filename) == trim_start(filename));
    assert(split_property(l1) == Some((seq!['i', 'd'], filename)));
    assert(seq!['t', 'y', 'p', 'e', '_'] != "id"@) by {
        reveal_strlit("id");
    }
    let st2 = MdProps { id: Some(filename), ..st1 };
    assert(md_step(st1, l1, filename) == Ok::<MdProps, MdDecodeError>(st2));
    // the empty line, and the body above it
    let above = pieces(body) + seq![Seq::<char>::empty()];
    assert(ls.drop_last() =~= above + seq![l1]);
    assert((above + seq![l1]).drop_last() =~= above);
    assert(above.drop_last() =~= pieces(body));
    lemma_join_pieces(body);
    assert(md_scan(above, st2, filename) == md_finish(st2, pieces(body)));
    assert(md_scan(above + seq![l1], st1, filename) == md_scan(above, st2, filename));
    assert(md_scan(ls, md_initial(), filename) == md_scan(above + seq![l1], st1, filename));
}

/// A property line whose key the decoder does not read.
pub open spec fn is_unknown_property(l: Seq<char>) -> bool {
    &&& l.len() > 0
    &&& match split_property(l) {
        Some((key, _)) => key != "type_"@ && key != "id"@ && key != "parent_id"@ && key
            != "encryption_applied"@ && key != "encryption_cipher_text"@ && key
            != "deleted_time"@,
        None => false,
    }
}

proof fn lemma_scan_unknown_property(
    ls: Seq<Seq<char>>,
    k: int,
    l: Seq<char>,
    st: MdProps,
    filename: Seq<char>,
)
    requires
        0 <= k <= ls.len(),
        is_unknown_property(l),
        forall|i: int| k <= i < ls.len() ==> (#[trigger] ls[i]).len() > 0,
    ensures
        md_scan(ls.insert(k, l), st, filename) == md_scan(ls, st, filename),
    decreases ls.len(),
{
    let ls2 = ls.insert(k, l);
    if k == ls.len() {
        assert(ls2.last() == l);
        assert(ls2.drop_last() =~= ls);
    } else {
        assert(ls2.last() == ls.last());
        assert(ls2.drop_last() =~= ls.drop_last().insert(k, l));
        match md_step(st, ls.last(), filename) {
            Ok(next) => {
                lemma_scan_unknown_property(ls.drop_last(), k, l, next, filename);
            },
            Err(_) => {},
        }
    }
}

/// A line with a property that the decoder does not read, added below the
/// last empty line, changes nothing: the item or the error is the same.
pub proof fn lemma_unknown_property_ignored(
    s: Seq<char>,
    s2: Seq<char>,
    k: int,
    l: Seq<char>,
    filename: Seq<char>,
)
    requires
        0 <= k <= lines(s).len(),
        lines(s2) == lines(s).insert(k, l),
        is_unknown_property(l),
        forall|i: int| k <= i < lines(s).len() ==> (#[trigger] lines(s)[i]).len() > 0,
    ensures
        decode_md(s2, filename) == decode_md(s, filename),
{
    lemma_scan_unknown_property(lines(s), k, l, md_initial(), filename);
}

/// A property line that sets none of the body, type, id and parent: its key
/// is unknown to the decoder, or it is `deleted_time`.
pub open spec fn is_uncompared_property(l: Seq<char>) -> bool {
    &&& l.len() > 0
    &&& match split_property(l) {
        Some((key, _)) => key != "type_"@ && key != "id"@ && key != "parent_id"@ && key
            != "encryption_applied"@ && key != "encryption_cipher_text"@,
        None => false,
    }
}

/// The same error, or items with the same body, type, id and parent.
pub open spec fn same_but_deleted_time(
    a: Result<MdView, MdDecodeError>,
    b: Result<MdView, MdDecodeError>,
) -> bool {
    match (a, b) {
        (Err(x), Err(y)) => x == y,
        (Ok(m), Ok(n)) => m.body == n.body && m.tp == n.tp && m.id == n.id && m.parent_id
            == n.parent_id,
        _ => false,
    }
}

/// Properties read that differ at most in the deletion time.
pub open spec fn props_agree(a: MdProps, b: MdProps) -> bool {
    &&& a.tp == b.tp
    &&& a.id == b.id
    &&& a.parent_id == b.parent_id
    &&& a.encryption_applied == b.encryption_applied
    &&& a.cipher_text == b.cipher_text
}

proof fn lemma_scan_agree(ls: Seq<Seq<char>>, a: MdProps, b: MdProps, filename: Seq<char>)
    requires
        props_agree(a, b),
    ensures
        same_but_deleted_time(md_scan(ls, a, filename), md_scan(ls, b, filename)),
    decreases ls.len(),
{
    if ls.len() > 0 && ls.last().len() > 0 {
        match (md_step(a, ls.last(), filename), md_step(b, ls.last(), filename)) {
            (Ok(na), Ok(nb)) => {
                lemma_scan_agree(ls.drop_last(), na, nb, filename);
            },
            _ => {},
        }
    }
}

proof fn lemma_scan_uncompared_property(
    ls: Seq<Seq<char>>,
    k: int,
    l: Seq<char>,
    st: MdProps,
    filename: Seq<char>,
)
    requires
        0 <= k <= ls.len(),
        is_uncompared_property(l),
        forall|i: int| k <= i < ls.len() ==> (#[trigger] ls[i]).len() > 0,
    ensures
        same_but_deleted_time(md_scan(ls.insert(k, l), st, filename), md_scan(ls, st, filename)),
    decreases ls.len(),
{
    let ls2 = ls.insert(k, l);
    if k == ls.len() {
        assert(ls2.last() == l);
        assert(ls2.drop_last() =~= ls);
        let next = md_step(st, l, filename)->Ok_0;
        assert(props_agree(next, st));
        lemma_scan_agree(ls, next, st, filename);
    } else {
        assert(ls2.last() == ls.last());
        assert(ls2.drop_last() =~= ls.drop_last().insert(k, l));
        match md_step(st, ls.last(), filename) {
            Ok(next) => {
                lemma_scan_uncompared_property(ls.drop_last(), k, l, next, filename);
            },
            Err(_) => {},
        }
    }
}

/// A property line that sets none of the body, type, id and parent (an
/// unknown key, or `deleted_time`), added below the last empty line, leaves
/// the outcome as it was: the same error, or an item with the same body,
/// type, id and parent.
pub proof fn lemma_uncompared_property_ignored(
    s: Seq<char>,
    s2: Seq<char>,
    k: int,
    l: Seq<char>,
    filename: Seq<char>,
)
    requires
        0 <= k <= lines(s).len(),
        lines(s2) == lines(s).insert(k, l),
        is_uncompared_property(l),
        forall|i: int| k <= i < lines(s).len() ==> (#[trigger] lines(s)[i]).len() > 0,
    ensures
        same_but_deleted_time(decode_md(s2, filename), decode_md(s, filename)),
{
    lemma_scan_uncompared_property(lines(s), k, l, md_initial(), filename);
}

/// The parent that a property line names: its key is `parent_id` and its
/// value is not empty.
pub open spec fn parent_line_value(l: Seq<char>) -> Option<Seq<char>> {
    match split_property(l) {
        Some((key, v)) => if key == "parent_id"@ && v.len() > 0 {
            Some(v)
        } else {
            None
        },
        None => None,
    }
}

/// `h` is where the property lines of `ls` begin: every line from `h` on
/// is not empty, and the line just above, if any, is empty.
pub open spec fn props_start(ls: Seq<Seq<char>>, h: int) -> bool {
    &&& 0 <= h <= ls.len()
    &&& (h == 0 || ls[h - 1].len() == 0)
    &&& forall|i: int| h <= i < ls.len() ==> (#[trigger] ls[i]).len() > 0
}

proof fn lemma_scan_keeps_parent(ls: Seq<Seq<char>>, h: int, st: MdProps, filename: Seq<char>)
    requires
        props_start(ls, h),
        forall|i: int| h <= i < ls.len() ==> parent_line_value(#[trigger] ls[i]) is None,
    ensures
        md_scan(ls, st, filename) matches Ok(m) ==> m.parent_id == st.parent_id,
    decreases ls.len(),
{
    if ls.len() > h {
        assert(ls.last() == ls[ls.len() - 1]);
        match md_step(st, ls.last(), filename) {
            Ok(next) => {
                assert(next.parent_id == st.parent_id);
                lemma_scan_keeps_parent(ls.drop_last(), h, next, filename);
            },
            Err(_) => {},
        }
    } else if h > 0 {
        assert(ls.last() == ls[h - 1]);
    }
}

proof fn lemma_scan_parent(
    ls: Seq<Seq<char>>,
    h: int,
    k: int,
    p: Seq<char>,
    st: MdProps,
    filename: Seq<char>,
)
    requires
        props_start(ls, h),
        h <= k < ls.len(),
        parent_line_value(ls[k]) == Some(p),
        forall|i: int| h <= i < k ==> parent_line_value(#[trigger] ls[i]) is None,
    ensures
        md_scan(ls, st, filename) matches Ok(m) ==> m.parent_id == Some(p),
    decreases ls.len(),
{
    assert(ls.last() == ls[ls.len() - 1]);
    match md_step(st, ls.last(), filename) {
        Ok(next) => {
            if k == ls.len() - 1 {
                assert(next.parent_id == Some(p)) by {
                    reveal_strlit("parent_id");
                    reveal_strlit("type_");
                    reveal_strlit("id");
                    assert("parent_id"@.len() != "type_"@.len());
                    assert("parent_id"@.len() != "id"@.len());
                }
                lemma_scan_keeps_parent(ls.drop_last(), h, next, filename);
            } else {
                lemma_scan_parent(ls.drop_last(), h, k, p, next, filename);
            }
        },
        Err(_) => {},
    }
}

/// A decoded item's parent is what the first property line that names a
/// parent (`parent_id` with a value) names, whatever else the properties
/// say: an item marked encrypted keeps its parent too.
pub proof fn lemma_decoded_parent(s: Seq<char>, filename: Seq<char>, h: int, k: int, p: Seq<char>)
    requires
        props_start(lines(s), h),
        h <= k < lines(s).len(),
        parent_line_value(lines(s)[k]) == Some(p),
        forall|i: int| h <= i < k ==> parent_line_value(#[trigger] lines(s)[i]) is None,
    ensures
        decode_md(s, filename) matches Ok(m) ==> m.parent_id == Some(p),
{
    lemma_scan_parent(lines(s), h, k, p, md_initial(), filename);
}

/// An item whose property lines name no parent has none.
pub proof fn lemma_decoded_without_parent(s: Seq<char>, filename: Seq<char>, h: int)
    requires
        props_start(lines(s), h),
        forall|i: int| h <= i < lines(s).len() ==> parent_line_value(#[trigger] lines(s)[i]) is None,
    ensures
        decode_md(s, filename) matches Ok(m) ==> m.parent_id is None,
{
    lemma_scan_keeps_parent(lines(s), h, md_initial(), filename);
}

/// The cipher text that a property line holds: its key is
/// `encryption_cipher_text` and its value is not empty.
pub open spec fn cipher_line_value(l: Seq<char>) -> Option<Seq<char>> {
    match split_property(l) {
        Some((key, v)) => if key == "encryption_cipher_text"@ && v.len() > 0 {
            Some(v)
        } else {
            None
        },
        None => None,
    }
}

proof fn lemma_scan_keeps_cipher(ls: Seq<Seq<char>>, h: int, st: MdProps, filename: Seq<char>)
    requires
        props_start(ls, h),
        forall|i: int| h <= i < ls.len() ==> cipher_line_value(#[trigger] ls[i]) is None,
        st.cipher_text is Some,
    ensures
        md_scan(ls, st, filename) matches Ok(m) ==> (m.body is Encrypted ==> m.body
            == MdBodyView::Encrypted(st.cipher_text->Some_0)),
    decreases ls.len(),
{
    if ls.len() > h {
        assert(ls.last() == ls[ls.len() - 1]);
        match md_step(st, ls.last(), filename) {
            Ok(next) => {
                assert(next.cipher_text == st.cipher_text);
                lemma_scan_keeps_cipher(ls.drop_last(), h, next, filename);
            },
            Err(_) => {},
        }
    } else if h > 0 {
        assert(ls.last() == ls[h - 1]);
    }
}

proof fn lemma_scan_cipher(
    ls: Seq<Seq<char>>,
    h: int,
    k: int,
    c: Seq<char>,
    st: MdProps,
    filename: Seq<char>,
)
    requires
        props_start(ls, h),
        h <= k < ls.len(),
        cipher_line_value(ls[k]) == Some(c),
        forall|i: int| h <= i < k ==> cipher_line_value(#[trigger] ls[i]) is None,
    ensures
        md_scan(ls, st, filename) matches Ok(m) ==> (m.body is Encrypted ==> m.body
            == MdBodyView::Encrypted(c)),
    decreases ls.len(),
{
    assert(ls.last() == ls[ls.len() - 1]);
    match md_step(st, ls.last(), filename) {
        Ok(next) => {
            if k == ls.len() - 1 {
                assert(next.cipher_text == Some(c)) by {
                    reveal_strlit("encryption_cipher_text");
                    reveal_strlit("type_");
                    reveal_strlit("id");
                    reveal_strlit("parent_id");
                    reveal_strlit("encryption_applied");
                    assert("encryption_cipher_text"@.len() != "type_"@.len());
                    assert("encryption_cipher_text"@.len() != "id"@.len());
                    assert("encryption_cipher_text"@.len() != "parent_id"@.len());
                    assert("encryption_cipher_text"@.len() != "encryption_applied"@.len());
                }
                lemma_scan_keeps_cipher(ls.drop_last(), h, next, filename);
            } else {
                lemma_scan_cipher(ls.drop_last(), h, k, c, next, filename);
            }
        },
        Err(_) => {},
    }
}

/// An item decoded as encrypted has, as its body, the cipher text that the
/// first property line holding one (`encryption_cipher_text` with a value)
/// holds.
pub proof fn lemma_decoded_cipher_text(
    s: Seq<char>,
    filename: Seq<char>,
    h: int,
    k: int,
    c: Seq<char>,
)
    requires
        props_start(lines(s), h),
        h <= k < lines(s).len(),
        cipher_line_value(lines(s)[k]) == Some(c),
        forall|i: int| h <= i < k ==> cipher_line_value(#[trigger] lines(s)[i]) is None,
    ensures
        decode_md(s, filename) matches Ok(m) ==> (m.body is Encrypted ==> m.body
            == MdBodyView::Encrypted(c)),
{
    lemma_scan_cipher(lines(s), h, k, c, md_initial(), filename);
}

/// Whether a property line is a `type_` line.
pub open spec fn is_type_line(l: Seq<char>) -> bool {
    split_property(l) matches Some((key, _)) && key == "type_"@
}

/// The number that a `type_` line gives.
pub open spec fn type_line_number(l: Seq<char>) -> Result<u32, IntParseError> {
    parse_u32(split_property(l)->Some_0.1)
}

proof fn lemma_scan_keeps_type(ls: Seq<Seq<char>>, h: int, st: MdProps, filename: Seq<char>)
    requires
        props_start(ls, h),
        forall|i: int| h <= i < ls.len() ==> !is_type_line(#[trigger] ls[i]),
    ensures
        md_scan(ls, st, filename) matches Ok(m) ==> Some(m.tp) == st.tp,
    decreases ls.len(),
{
    if ls.len() > h {
        assert(ls.last() == ls[ls.len() - 1]);
        match md_step(st, ls.last(), filename) {
            Ok(next) => {
                assert(next.tp == st.tp);
                lemma_scan_keeps_type(ls.drop_last(), h, next, filename);
            },
            Err(_) => {},
        }
    } else if h > 0 {
        assert(ls.last() == ls[h - 1]);
    }
}

proof fn lemma_scan_type(
    ls: Seq<Seq<char>>,
    h: int,
    k: int,
    st: MdProps,
    filename: Seq<char>,
)
    requires
        props_start(ls, h),
        h <= k < ls.len(),
        is_type_line(ls[k]),
        forall|i: int| h <= i < k ==> !is_type_line(#[trigger] ls[i]),
    ensures
        md_scan(ls, st, filename) matches Ok(m) ==> (type_line_number(ls[k]) == Ok::<
            u32,
            IntParseError,
        >(1) && m.tp == DecodedMdType::Note) || (type_line_number(ls[k]) == Ok::<
            u32,
            IntParseError,
        >(2) && m.tp == DecodedMdType::Folder),
    decreases ls.len(),
{
    assert(ls.last() == ls[ls.len() - 1]);
    match md_step(st, ls.last(), filename) {
        Ok(next) => {
            if k == ls.len() - 1 {
                lemma_scan_keeps_type(ls.drop_last(), h, next, filename);
            } else {
                lemma_scan_type(ls.drop_last(), h, k, next, filename);
            }
        },
        Err(_) => {},
    }
}

/// A decoded item's type is what the first `type_` property line gives:
/// `1` a note, `2` a folder; any other value is no item. Encryption marks
/// change nothing of it.
pub proof fn lemma_decoded_type(s: Seq<char>, filename: Seq<char>, h: int, k: int)
    requires
        props_start(lines(s), h),
        h <= k < lines(s).len(),
        is_type_line(lines(s)[k]),
        forall|i: int| h <= i < k ==> !is_type_line(#[trigger] lines(s)[i]),
    ensures
        decode_md(s, filename) matches Ok(m) ==> (type_line_number(lines(s)[k]) == Ok::<
            u32,
            IntParseError,
        >(1) && m.tp == DecodedMdType::Note) || (type_line_number(lines(s)[k]) == Ok::<
            u32,
            IntParseError,
        >(2) && m.tp == DecodedMdType::Folder),
{
    lemma_scan_type(lines(s), h, k, md_initial(), filename);
}

/// An item without a `type_` property line does not decode.
pub proof fn lemma_decoded_needs_type(s: Seq<char>, filename: Seq<char>, h: int)
    requires
        props_start(lines(s), h),
        forall|i: int| h <= i < lines(s).len() ==> !is_type_line(#[trigger] lines(s)[i]),
    ensures
        decode_md(s, filename) is Err,
{
    lemma_scan_keeps_type(lines(s), h, md_initial(), filename);
}

/// A decoded item has the id of its file.
pub proof fn lemma_decoded_id(s: Seq<char>, filename: Seq<char>)
    ensures
        decode_md(s, filename) matches Ok(m) ==> m.id == filename,
{
    lemma_scan_id(lines(s), md_initial(), filename);
}

proof fn lemma_scan_id(ls: Seq<Seq<char>>, st: MdProps, filename: Seq<char>)
    requires
        st.id matches Some(id) ==> id == filename,
    ensures
        md_scan(ls, st, filename) matches Ok(m) ==> m.id == filename,
    decreases ls.len(),
{
    if ls.len() > 0 && ls.last().len() > 0 {
        match md_step(st, ls.last(), filename) {
            Ok(next) => {
                lemma_scan_id(ls.drop_last(), next, filename);
            },
            Err(_) => {},
        }
    }
}

/// The properties read so far, as ranges of the item's text.
struct MdState {
    tp: Option<DecodedMdType>,
    id: Option<(usize, usize)>,
    parent_id: Option<(usize, usize)>,
    encryption_applied: bool,
    cipher_text: Option<(usize, usize)>,
    deleted_time: Option<(usize, usize)>,
}

impl MdState {
    spec fn props(&self, v: Seq<char>) -> MdProps {
        MdProps {
            tp: self.tp,
            id: opt_range_view(v, self.id),
            parent_id: opt_range_view(v, self.parent_id),
            encryption_applied: self.encryption_applied,
            cipher_text: opt_range_view(v, self.cipher_text),
            deleted_time: opt_range_view(v, self.deleted_time),
        }
    }

    spec fn within(&self, n: nat) -> bool {
        &&& opt_range_within(self.id, n)
        &&& opt_range_within(self.parent_id, n)
        &&& opt_range_within(self.cipher_text, n)
        &&& opt_range_within(self.deleted_time, n)
    }
}

fn opt_string_from_range(v: &Vec<char>, r: Option<(usize, usize)>) -> (res: Option<String>)
    requires
        opt_range_within(r, v@.len()),
    ensures
        opt_string_view(res) == opt_range_view(v@, r),
{
    match r {
        Some((a, b)) => Some(string_from_range(v, a, b)),
        None => None,
    }
}

/// Applies the property line `v[a..b]` to `st`.
fn md_apply_line(v: &Vec<char>, a: usize, b: usize, st: MdState, filename: &Vec<char>) -> (res:
    Result<MdState, JoplinError>)
    requires
        a <= b <= v.len(),
        st.within(v@.len()),
    ensures
        match (res, md_step(st.props(v@), v@.subrange(a as int, b as int), filename@)) {
            (Ok(next), Ok(p)) => next.props(v@) == p && next.within(v@.len()),
            (Err(JoplinError::Decode(msg)), Err(e)) => msg@ == md_error_message(e, filename@),
            _ => false,
        },
{
    let ghost line = v@.subrange(a as int, b as int);
    let idx = match find_in_range(v, a, b, ':') {
        None => {
            return Err(decode_error(String::from_str("invalid property format")));
        },
        Some(idx) => idx,
    };
    let (ka, kb) = trim_range(v, a, idx);
    let (va, vb) = trim_range(v, idx + 1, b);
    assert(line.take(idx - a) =~= v@.subrange(a as int, idx as int));
    assert(line.skip(idx - a + 1) =~= v@.subrange(idx + 1, b as int));
    let ghost key = v@.subrange(ka as int, kb as int);
    let ghost value = v@.subrange(va as int, vb as int);
    assert(split_property(line) == Some((key, value)));
    let mut st = st;
    if range_eq_str(v, ka, kb, "type_") {
        match parse_u32_range(v, va, vb) {
            Ok(n) => {
                if n == 1 {
                    st.tp = Some(DecodedMdType::Note);
                } else if n == 2 {
                    st.tp = Some(DecodedMdType::Folder);
                } else {
                    let mut msg = String::from_str("unsupported md type: ");
                    push_decimal(&mut msg, n);
                    return Err(decode_error(msg));
                }
            },
            Err(k) => {
                let mut msg = String::from_str("failed to parse md type: ");
                msg.append(int_error_text(k));
                return Err(decode_error(msg));
            },
        }
    } else if range_eq_str(v, ka, kb, "id") {
        if range_eq_chars(v, va, vb, filename) {
            st.id = Some((va, vb));
        } else {
            let mut msg = String::from_str("mismatched id: ");
            let value_string = string_from_range(v, va, vb);
            msg.append(value_string.as_str());
            msg.append(" instead of ");
            let filename_string = string_from_range(filename, 0, filename.len());
            assert(filename@.subrange(0, filename@.len() as int) =~= filename@);
            msg.append(filename_string.as_str());
            return Err(decode_error(msg));
        }
    } else if range_eq_str(v, ka, kb, "parent_id") {
        if va < vb {
            st.parent_id = Some((va, vb));
        }
    } else if range_eq_str(v, ka, kb, "encryption_applied") {
        if range_eq_str(v, va, vb, "1") {
            st.encryption_applied = true;
        }
    } else if range_eq_str(v, ka, kb, "encryption_cipher_text") {
        if va < vb {
            st.cipher_text = Some((va, vb));
        }
    } else if range_eq_str(v, ka, kb, "deleted_time") {
        if va < vb && !range_eq_str(v, va, vb, "0") {
            st.deleted_time = Some((va, vb));
        }
    }
    Ok(st)
}

/// The item made of `st` and the first `k` lines as the body.
fn md_finish_exec(
    v: &Vec<char>,
    ls: &Vec<(usize, usize)>,
    k: usize,
    st: MdState,
    filename: &Vec<char>,
) -> (res: Result<DecodedMd, JoplinError>)
    requires
        k <= ls.len(),
        ranges_within(ls@, v@.len()),
        st.within(v@.len()),
    ensures
        md_result_matches(
            res,
            md_finish(st.props(v@), range_views(v@, ls@).take(k as int)),
            filename@,
        ),
{
    let tp = match st.tp {
        None => {
            return Err(decode_error(String::from_str("missing node type")));
        },
        Some(tp) => tp,
    };
    let (ia, ib) = match st.id {
        None => {
            return Err(decode_error(String::from_str("missing id")));
        },
        Some(r) => r,
    };
    let body = if st.encryption_applied {
        let (ca, cb) = match st.cipher_text {
            None => {
                return Err(decode_error(String::from_str("malformed encryption: missing cipher text")));
            },
            Some(r) => r,
        };
        if k > 0 {
            return Err(decode_error(String::from_str("malformed encryption: unexpected body")));
        }
        DecodedMdBody::Encrypted(string_from_range(v, ca, cb))
    } else {
        DecodedMdBody::Unencrypted(join_ranges(v, ls, k, '\n'))
    };
    Ok(
        DecodedMd {
            body,
            tp,
            id: string_from_range(v, ia, ib),
            parent_id: opt_string_from_range(v, st.parent_id),
            deleted_time: opt_string_from_range(v, st.deleted_time),
        },
    )
}

impl DecodedMd {
    /// Decodes the text `s` of the item stored in the file whose name,
    /// without extension, is `filename`.
    pub fn from_string(s: &str, filename: &str) -> (res: Result<DecodedMd, JoplinError>)
        ensures
            md_result_matches(res, decode_md(s@, filename@), filename@),
    {
        let v = str_chars(s);
        let fname = str_chars(filename);
        let ls = line_ranges(&v);
        let mut st = MdState {
            tp: None,
            id: None,
            parent_id: None,
            encryption_applied: false,
            cipher_text: None,
            deleted_time: None,
        };
        let mut i = ls.len();
        assert(range_views(v@, ls@).take(i as int) =~= range_views(v@, ls@));
        while i > 0
            invariant
                i <= ls.len(),
                ranges_within(ls@, v@.len()),
                st.within(v@.len()),
                fname@ == filename@,
                v@ == s@,
                decode_md(s@, filename@) == md_scan(
                    range_views(v@, ls@).take(i as int),
                    st.props(v@),
                    filename@,
                ),
            decreases i,
        {
            let ghost ls_view = range_views(v@, ls@).take(i as int);
            let (a, b) = ls[i - 1];
            assert(ls_view.last() == v@.subrange(a as int, b as int));
            assert(ls_view.drop_last() =~= range_views(v@, ls@).take(i - 1));
            if a == b {
                return md_finish_exec(&v, &ls, i - 1, st, &fname);
            }
            match md_apply_line(&v, a, b, st, &fname) {
                Ok(next) => {
                    st = next;
                },
                Err(e) => {
                    return Err(e);
                },
            }
            i -= 1;
        }
        md_finish_exec(&v, &ls, 0, st, &fname)
    }
}

} // verus!

//! Decoding of items into generic nodes that keep every other property.
pub mod json;
pub mod md;

use vstd::prelude::*;

use crate::decoder::md::{
    decode_md, md_scan, md_step, DecodedMdType, MdBodyView, MdDecodeError, MdProps, MdView, md_initial, parent_line_value, props_start,
};
use crate::error::{decode_error, JoplinError};
use crate::text::{
    opt_range_view, opt_range_within,
    decimal, find_in_range, has_no_cr, int_error_message, lemma_join_pieces, lemma_lines_after,
    pieces, int_error_text, join, join_ranges, line_ranges,
    lines, parse_u32, parse_u32_range, push_decimal, range_eq_chars, range_eq_str, range_views,
    ranges_within, split_property, str_chars, string_from_range, trim_range, IntParseError,
};

verus! {

/// What a node is.
#[derive(PartialEq, Eq, Structural, Clone, Copy, Debug)]
pub enum DecodedNodeType {
    Note,
    Folder,
}

/// A decoded node. `props` holds the properties that have no field of
/// their own, each key once, in the order in which their keys first came.
pub struct DecodedNode {
    pub contents: String,
    pub tp: DecodedNodeType,
    pub id: String,
    pub parent_id: Option<String>,
    pub props: Vec<(String, String)>,
}

/// A decoded node as text.
pub struct NodeView {
    pub contents: Seq<char>,
    pub tp: DecodedNodeType,
    pub id: Seq<char>,
    pub parent_id: Option<Seq<char>>,
    pub props: Seq<(Seq<char>, Seq<char>)>,
}

pub open spec fn pairs_view(ps: Seq<(String, String)>) -> Seq<(Seq<char>, Seq<char>)> {
    ps.map_values(|p: (String, String)| (p.0@, p.1@))
}

impl View for DecodedNode {
    type V = NodeView;

    open spec fn view(&self) -> NodeView {
        NodeView {
            contents: self.contents@,
            tp: self.tp,
            id: self.id@,
            parent_id: match self.parent_id {
                Some(p) => Some(p@),
                None => None,
            },
            props: pairs_view(self.props@),
        }
    }
}

/// The index of the pair whose key is `k`.
pub open spec fn key_index(ps: Seq<(Seq<char>, Seq<char>)>, k: Seq<char>) -> Option<int>
    decreases ps.len(),
{
    if ps.len() == 0 {
        None
    } else if ps.last().0 == k {
        Some(ps.len() - 1)
    } else {
        key_index(ps.drop_last(), k)
    }
}

/// No key occurs twice.
pub open spec fn keys_unique(ps: Seq<(Seq<char>, Seq<char>)>) -> bool {
    forall|i: int, j: int| 0 <= i < j < ps.len() ==> (#[trigger] ps[i]).0 != (#[trigger] ps[j]).0
}

/// `ps` with `k` mapped to `v`: the pair of key `k` replaced where there is
/// one, else the pair added at the end (`HashMap::insert`).
pub open spec fn insert_pair(ps: Seq<(Seq<char>, Seq<char>)>, k: Seq<char>, v: Seq<char>) -> Seq<
    (Seq<char>, Seq<char>),
> {
    match key_index(ps, k) {
        Some(i) => ps.update(i, (k, v)),
        None => ps.push((k, v)),
    }
}

/// What has been read so far.
pub struct NodeProps {
    pub tp: Option<DecodedNodeType>,
    pub id: Option<Seq<char>>,
    pub parent_id: Option<Seq<char>>,
    pub encryption_applied: bool,
    pub props: Seq<(Seq<char>, Seq<char>)>,
}

/// Why a node does not decode.
pub enum NodeDecodeError {
    InvalidPropertyFormat,
    UnsupportedType(u32),
    BadType(IntParseError),
    MismatchedId(Seq<char>),
    MissingType,
    MissingId,
    MalformedEncryption,
}

/// The message that the error carries.
pub open spec fn node_error_message(e: NodeDecodeError) -> Seq<char> {
    match e {
        NodeDecodeError::InvalidPropertyFormat => "invalid property format"@,
        NodeDecodeError::UnsupportedType(n) => "unsupported node type: "@ + decimal(n as nat),
        NodeDecodeError::BadType(k) => "failed to parse node type: "@ + int_error_message(k),
        NodeDecodeError::MismatchedId(v) => "mismatched node id: "@ + v,
        NodeDecodeError::MissingType => "missing node type"@,
        NodeDecodeError::MissingId => "missing id"@,
        NodeDecodeError::MalformedEncryption => "malformed encryption"@,
    }
}

/// Whether `res` is the value or the error that `spec` describes.
pub open spec fn node_result_matches(
    res: Result<DecodedNode, JoplinError>,
    spec: Result<NodeView, NodeDecodeError>,
) -> bool {
    match (res, spec) {
        (Ok(d), Ok(m)) => d@ == m,
        (Err(JoplinError::Decode(msg)), Err(e)) => msg@ == node_error_message(e),
        _ => false,
    }
}

pub open spec fn node_initial() -> NodeProps {
    NodeProps { tp: None, id: None, parent_id: None, encryption_applied: false, props: seq![] }
}

/// The effect of one property on what has been read.
pub open spec fn node_apply_property(
    st: NodeProps,
    key: Seq<char>,
    value: Seq<char>,
    file_stem: Seq<char>,
) -> Result<NodeProps, NodeDecodeError> {
    if key == "type_"@ {
        match parse_u32(value) {
            Ok(n) => if n == 1 {
                Ok(NodeProps { tp: Some(DecodedNodeType::Note), ..st })
            } else if n == 2 {
                Ok(NodeProps { tp: Some(DecodedNodeType::Folder), ..st })
            } else {
                Err(NodeDecodeError::UnsupportedType(n))
            },
            Err(k) => Err(NodeDecodeError::BadType(k)),
        }
    } else if key == "id"@ {
        if value == file_stem {
            Ok(NodeProps { id: Some(value), ..st })
        } else {
            Err(NodeDecodeError::MismatchedId(value))
        }
    } else if key == "parent_id"@ {
        if value.len() > 0 {
            Ok(NodeProps { parent_id: Some(value), ..st })
        } else {
            Ok(st)
        }
    } else if key == "encryption_applied"@ {
        if value == "1"@ {
            Ok(NodeProps { encryption_applied: true, ..st })
        } else {
            Ok(st)
        }
    } else {
        Ok(NodeProps { props: insert_pair(st.props, key, value), ..st })
    }
}

/// The effect of one property line.
pub open spec fn node_step(st: NodeProps, line: Seq<char>, file_stem: Seq<char>) -> Result<
    NodeProps,
    NodeDecodeError,
> {
    match split_property(line) {
        None => Err(NodeDecodeError::InvalidPropertyFormat),
        Some((key, value)) => node_apply_property(st, key, value, file_stem),
    }
}

/// The node made of the properties read and the content lines.
pub open spec fn node_finish(st: NodeProps, contents: Seq<Seq<char>>) -> Result<
    NodeView,
    NodeDecodeError,
> {
    match st.tp {
        None => Err(NodeDecodeError::MissingType),
        Some(tp) => match st.id {
            None => Err(NodeDecodeError::MissingId),
            Some(id) => {
                if st.encryption_applied && contents.len() > 0 {
                    Err(NodeDecodeError::MalformedEncryption)
                } else {
                    Ok(
                        NodeView {
                            contents: if st.encryption_applied {
                                "<ENCRYPTED>"@
                            } else {
                                join(contents, '\n')
                            },
                            tp,
                            id,
                            parent_id: st.parent_id,
                            props: st.props,
                        },
                    )
                }
            },
        },
    }
}

/// The lines read from the last one up: properties until an empty line,
/// and everything above that empty line is the content.
pub open spec fn node_scan(ls: Seq<Seq<char>>, st: NodeProps, file_stem: Seq<char>) -> Result<
    NodeView,
    NodeDecodeError,
>
    decreases ls.len(),
{
    if ls.len() == 0 {
        node_finish(st, seq![])
    } else if ls.last().len() == 0 {
        node_finish(st, ls.drop_last())
    } else {
        match node_step(st, ls.last(), file_stem) {
            Err(e) => Err(e),
            Ok(next) => node_scan(ls.drop_last(), next, file_stem),
        }
    }
}

/// The node that the text `s` of the file with stem `file_stem` decodes to.
pub open spec fn decode_node(s: Seq<char>, file_stem: Seq<char>) -> Result<
    NodeView,
    NodeDecodeError,
> {
    node_scan(lines(s), node_initial(), file_stem)
}

/// Below an empty line every line is a property: the lines above it, of
/// which there is at least one, are the content.
proof fn lemma_node_scan_to_separator(
    above: Seq<Seq<char>>,
    props: Seq<Seq<char>>,
    st: NodeProps,
    file_stem: Seq<char>,
)
    requires
        above.len() > 0,
        forall|i: int| 0 <= i < props.len() ==> (#[trigger] props[i]).len() > 0,
    ensures
        node_scan(above + seq![Seq::<char>::empty()] + props, st, file_stem) matches Ok(n)
            ==> n.contents == join(above, '\n'),
    decreases props.len(),
{
    let ls = above + seq![Seq::<char>::empty()] + props;
    if props.len() == 0 {
        assert(ls.drop_last() =~= above);
    } else {
        assert(ls.last() == props.last());
        assert(ls.drop_last() =~= above + seq![Seq::<char>::empty()] + props.drop_last());
        match node_step(st, props.last(), file_stem) {
            Ok(next) => {
                lemma_node_scan_to_separator(above, props.drop_last(), next, file_stem);
            },
            Err(_) => {},
        }
    }
}

/// Text written above an empty line that property lines follow is read
/// back as the content of the node.
pub proof fn lemma_contents_read_back(body: Seq<char>, props: Seq<char>, file_stem: Seq<char>)
    requires
        has_no_cr(body),
        forall|i: int| 0 <= i < lines(props).len() ==> (#[trigger] lines(props)[i]).len() > 0,
    ensures
        decode_node(body + seq!['\n', '\n'] + props, file_stem) matches Ok(n) ==> n.contents
            == body,
{
    let rest = seq!['\n'] + props;
    assert(body + seq!['\n', '\n'] + props =~= body + seq!['\n'] + rest);
    lemma_lines_after(body, rest);
    assert(Seq::<char>::empty() + seq!['\n'] + props =~= rest);
    lemma_lines_after(Seq::<char>::empty(), props);
    assert(pieces(Seq::<char>::empty()) == seq![Seq::<char>::empty()]);
    assert(lines(body + seq!['\n', '\n'] + props) =~= pieces(body) + seq![Seq::<char>::empty()]
        + lines(props));
    lemma_join_pieces(body);
    lemma_node_scan_to_separator(pieces(body), lines(props), node_initial(), file_stem);
}

/// A decoded node has the id of its file, and each of its other
/// properties once.
pub proof fn lemma_decoded_node(s: Seq<char>, file_stem: Seq<char>)
    ensures
        decode_node(s, file_stem) matches Ok(n) ==> n.id == file_stem && keys_unique(n.props),
{
    lemma_node_scan(lines(s), node_initial(), file_stem);
}

/// The node type of an item type.
pub open spec fn node_type_of(t: DecodedMdType) -> DecodedNodeType {
    match t {
        DecodedMdType::Note => DecodedNodeType::Note,
        DecodedMdType::Folder => DecodedNodeType::Folder,
    }
}

/// Whether none of the property lines below the last empty line of `ls`
/// is `encryption_applied: 1`.
pub open spec fn no_encryption_mark(ls: Seq<Seq<char>>) -> bool
    decreases ls.len(),
{
    if ls.len() == 0 || ls.last().len() == 0 {
        true
    } else {
        split_property(ls.last()) != Some(("encryption_applied"@, "1"@)) && no_encryption_mark(
            ls.drop_last(),
        )
    }
}

/// Both decoders fail, or both succeed on the same item: the node's
/// contents are the item's plain body, with the same type, id and parent.
pub open spec fn node_agrees_with_md(
    n: Result<NodeView, NodeDecodeError>,
    m: Result<MdView, MdDecodeError>,
) -> bool {
    match (n, m) {
        (Ok(nv), Ok(mv)) => mv.body == MdBodyView::Unencrypted(nv.contents) && nv.tp
            == node_type_of(mv.tp) && nv.id == mv.id && nv.parent_id == mv.parent_id,
        (Err(_), Err(_)) => true,
        _ => false,
    }
}

proof fn lemma_scans_agree(
    ls: Seq<Seq<char>>,
    sn: NodeProps,
    sm: MdProps,
    filename: Seq<char>,
)
    requires
        no_encryption_mark(ls),
        !sn.encryption_applied,
        !sm.encryption_applied,
        sn.id == sm.id,
        sn.parent_id == sm.parent_id,
        sm.tp matches Some(t) ==> sn.tp == Some(node_type_of(t)),
        sm.tp is None ==> sn.tp is None,
    ensures
        node_agrees_with_md(node_scan(ls, sn, filename), md_scan(ls, sm, filename)),
    decreases ls.len(),
{
    if ls.len() > 0 && ls.last().len() > 0 {
        match (node_step(sn, ls.last(), filename), md_step(sm, ls.last(), filename)) {
            (Ok(nn), Ok(nm)) => {
                lemma_scans_agree(ls.drop_last(), nn, nm, filename);
            },
            _ => {},
        }
    }
}

/// Where no property line marks the item encrypted, decoding it as a node
/// and as an item agree: both fail, or the node's contents are the item's
/// body, with the same type, id and parent.
pub proof fn lemma_node_agrees_with_md(s: Seq<char>, filename: Seq<char>)
    requires
        no_encryption_mark(lines(s)),
    ensures
        node_agrees_with_md(decode_node(s, filename), decode_md(s, filename)),
{
    lemma_scans_agree(lines(s), node_initial(), md_initial(), filename);
}

proof fn lemma_node_scan_keeps_parent(
    ls: Seq<Seq<char>>,
    h: int,
    st: NodeProps,
    file_stem: Seq<char>,
)
    requires
        props_start(ls, h),
        forall|i: int| h <= i < ls.len() ==> parent_line_value(#[trigger] ls[i]) is None,
    ensures
        node_scan(ls, st, file_stem) matches Ok(n) ==> n.parent_id == st.parent_id,
    decreases ls.len(),
{
    if ls.len() > h {
        assert(ls.last() == ls[ls.len() - 1]);
        match node_step(st, ls.last(), file_stem) {
            Ok(next) => {
                assert(next.parent_id == st.parent_id);
                lemma_node_scan_keeps_parent(ls.drop_last(), h, next, file_stem);
            },
            Err(_) => {},
        }
    } else if h > 0 {
        assert(ls.last() == ls[h - 1]);
    }
}

proof fn lemma_node_scan_parent(
    ls: Seq<Seq<char>>,
    h: int,
    k: int,
    p: Seq<char>,
    st: NodeProps,
    file_stem: Seq<char>,
)
    requires
        props_start(ls, h),
        h <= k < ls.len(),
        parent_line_value(ls[k]) == Some(p),
        forall|i: int| h <= i < k ==> parent_line_value(#[trigger] ls[i]) is None,
    ensures
        node_scan(ls, st, file_stem) matches Ok(n) ==> n.parent_id == Some(p),
    decreases ls.len(),
{
    assert(ls.last() == ls[ls.len() - 1]);
    match node_step(st, ls.last(), file_stem) {
        Ok(next) => {
            if k == ls.len() - 1 {
                assert(next.parent_id == Some(p)) by {
                    reveal_strlit("parent_id");
                    reveal_strlit("type_");
                    reveal_strlit("id");
                    assert("parent_id"@.len() != "type_"@.len());
                    assert("parent_id"@.len() != "id"@.len());
                }
                lemma_node_scan_keeps_parent(ls.drop_last(), h, next, file_stem);
            } else {
                lemma_node_scan_parent(ls.drop_last(), h, k, p, next, file_stem);
            }
        },
        Err(_) => {},
    }
}

/// A decoded node's parent is what the first property line that names a
/// parent (`parent_id` with a value) names, whether or not the node is
/// marked encrypted.
pub proof fn lemma_node_parent(s: Seq<char>, file_stem: Seq<char>, h: int, k: int, p: Seq<char>)
    requires
        props_start(lines(s), h),
        h <= k < lines(s).len(),
        parent_line_value(lines(s)[k]) == Some(p),
        forall|i: int| h <= i < k ==> parent_line_value(#[trigger] lines(s)[i]) is None,
    ensures
        decode_node(s, file_stem) matches Ok(n) ==> n.parent_id == Some(p),
{
    lemma_node_scan_parent(lines(s), h, k, p, node_initial(), file_stem);
}

/// A node whose property lines name no parent has none.
pub proof fn lemma_node_without_parent(s: Seq<char>, file_stem: Seq<char>, h: int)
    requires
        props_start(lines(s), h),
        forall|i: int| h <= i < lines(s).len() ==> parent_line_value(#[trigger] lines(s)[i]) is None,
    ensures
        decode_node(s, file_stem) matches Ok(n) ==> n.parent_id is None,
{
    lemma_node_scan_keeps_parent(lines(s), h, node_initial(), file_stem);
}

proof fn lemma_insert_pair_unique(ps: Seq<(Seq<char>, Seq<char>)>, k: Seq<char>, v: Seq<char>)
    requires
        keys_unique(ps),
    ensures
        keys_unique(insert_pair(ps, k, v)),
{
    lemma_key_index(ps, k);
    let r = insert_pair(ps, k, v);
    assert forall|i: int, j: int| 0 <= i < j < r.len() implies (#[trigger] r[i]).0 != (
    #[trigger] r[j]).0 by {
        if j < ps.len() {
            assert(ps[i].0 != ps[j].0);
        }
    }
}

proof fn lemma_node_scan(ls: Seq<Seq<char>>, st: NodeProps, file_stem: Seq<char>)
    requires
        st.id matches Some(id) ==> id == file_stem,
        keys_unique(st.props),
    ensures
        node_scan(ls, st, file_stem) matches Ok(n) ==> n.id == file_stem && keys_unique(n.props),
    decreases ls.len(),
{
    if ls.len() > 0 && ls.last().len() > 0 {
        match split_property(ls.last()) {
            Some((key, value)) => {
                lemma_insert_pair_unique(st.props, key, value);
            },
            None => {},
        }
        match node_step(st, ls.last(), file_stem) {
            Ok(next) => {
                lemma_node_scan(ls.drop_last(), next, file_stem);
            },
            Err(_) => {},
        }
    }
}

/// What has been read so far; the named properties as ranges of the text.
struct NodeState {
    tp: Option<DecodedNodeType>,
    id: Option<(usize, usize)>,
    parent_id: Option<(usize, usize)>,
    encryption_applied: bool,
    props: Vec<(String, String)>,
}

impl NodeState {
    spec fn props_view(&self, v: Seq<char>) -> NodeProps {
        NodeProps {
            tp: self.tp,
            id: opt_range_view(v, self.id),
            parent_id: opt_range_view(v, self.parent_id),
            encryption_applied: self.encryption_applied,
            props: pairs_view(self.props@),
        }
    }

    spec fn within(&self, n: nat) -> bool {
        &&& opt_range_within(self.id, n)
        &&& opt_range_within(self.parent_id, n)
    }
}

proof fn lemma_key_index(ps: Seq<(Seq<char>, Seq<char>)>, k: Seq<char>)
    ensures
        key_index(ps, k) matches Some(i) ==> 0 <= i < ps.len() && ps[i].0 == k,
        key_index(ps, k) is None ==> forall|j: int| 0 <= j < ps.len() ==> ps[j].0 != k,
    decreases ps.len(),
{
    if ps.len() > 0 && ps.last().0 != k {
        lemma_key_index(ps.drop_last(), k);
        assert forall|j: int| 0 <= j < ps.len() - 1 implies ps[j] == ps.drop_last()[j] by {}
    }
}

proof fn lemma_key_index_unique(ps: Seq<(Seq<char>, Seq<char>)>, k: Seq<char>, i: int)
    requires
        keys_unique(ps),
        0 <= i < ps.len(),
        ps[i].0 == k,
    ensures
        key_index(ps, k) == Some(i),
    decreases ps.len(),
{
    if i < ps.len() - 1 {
        assert(ps.last().0 != k) by {
            assert(ps[i].0 != ps[ps.len() - 1].0);
        }
        lemma_key_index_unique(ps.drop_last(), k, i);
    }
}

/// Maps `key` to `value` in `props`.
fn insert_prop(props: &mut Vec<(String, String)>, key: String, value: String)
    requires
        keys_unique(pairs_view(old(props)@)),
    ensures
        pairs_view(final(props)@) == insert_pair(pairs_view(old(props)@), key@, value@),
        keys_unique(pairs_view(final(props)@)),
{
    let ghost before = pairs_view(props@);
    let mut i: usize = 0;
    while i < props.len()
        invariant
            i <= props.len(),
            props@ == old(props)@,
            before == pairs_view(props@),
            keys_unique(before),
            forall|j: int| 0 <= j < i ==> before[j].0 != key@,
        decreases props.len() - i,
    {
        if props[i].0 == key {
            proof {
                lemma_key_index_unique(before, key@, i as int);
            }
            props.set(i, (key, value));
            assert(pairs_view(props@) =~= before.update(i as int, (key@, value@)));
            assert forall|a: int, b: int|
                0 <= a < b < pairs_view(props@).len() implies (#[trigger] pairs_view(
                props@,
            )[a]).0 != (#[trigger] pairs_view(props@)[b]).0 by {
                assert(before[a].0 != before[b].0);
            }
            return;
        }
        i += 1;
    }
    proof {
        lemma_key_index(before, key@);
        if key_index(before, key@) is Some {
            let i = key_index(before, key@)->0;
            assert(before[i].0 == key@);
        }
    }
    props.push((key, value));
    assert(pairs_view(props@) =~= before.push((key@, value@)));
}

/// Applies the property line `v[a..b]` to `st`.
fn node_apply_line(v: &Vec<char>, a: usize, b: usize, st: NodeState, stem: &Vec<char>) -> (res:
    Result<NodeState, JoplinError>)
    requires
        a <= b <= v.len(),
        st.within(v@.len()),
        keys_unique(pairs_view(st.props@)),
    ensures
        match (res, node_step(st.props_view(v@), v@.subrange(a as int, b as int), stem@)) {
            (Ok(next), Ok(p)) => next.props_view(v@) == p && next.within(v@.len()) && keys_unique(
                pairs_view(next.props@),
            ),
            (Err(JoplinError::Decode(msg)), Err(e)) => msg@ == node_error_message(e),
            _ => false,
        },
{
    let ghost line = v@.subrange(a as int, b as int);
    let idx = match find_in_range(v, a, b, ':') {
        None => {
            return Err(decode_error(String::from_str("invalid property format")));
        },
        Some(idx) => idx,
    };
    let (ka, kb) = trim_range(v, a, idx);
    let (va, vb) = trim_range(v, idx + 1, b);
    assert(line.take(idx - a) =~= v@.subrange(a as int, idx as int));
    assert(line.skip(idx - a + 1) =~= v@.subrange(idx + 1, b as int));
    let ghost key = v@.subrange(ka as int, kb as int);
    let ghost value = v@.subrange(va as int, vb as int);
    assert(split_property(line) == Some((key, value)));
    let mut st = st;
    if range_eq_str(v, ka, kb, "type_") {
        match parse_u32_range(v, va, vb) {
            Ok(n) => {
                if n == 1 {
                    st.tp = Some(DecodedNodeType::Note);
                } else if n == 2 {
                    st.tp = Some(DecodedNodeType::Folder);
                } else {
                    let mut msg = String::from_str("unsupported node type: ");
                    push_decimal(&mut msg, n);
                    return Err(decode_error(msg));
                }
            },
            Err(k) => {
                let mut msg = String::from_str("failed to parse node type: ");
                msg.append(int_error_text(k));
                return Err(decode_error(msg));
            },
        }
    } else if range_eq_str(v, ka, kb, "id") {
        if range_eq_chars(v, va, vb, stem) {
            st.id = Some((va, vb));
        } else {
            let mut msg = String::from_str("mismatched node id: ");
            let value_string = string_from_range(v, va, vb);
            msg.append(value_string.as_str());
            return Err(decode_error(msg));
        }
    } else if range_eq_str(v, ka, kb, "parent_id") {
        if va < vb {
            st.parent_id = Some((va, vb));
        }
    } else if range_eq_str(v, ka, kb, "encryption_applied") {
        if range_eq_str(v, va, vb, "1") {
            st.encryption_applied = true;
        }
    } else {
        let k = string_from_range(v, ka, kb);
        let val = string_from_range(v, va, vb);
        insert_prop(&mut st.props, k, val);
    }
    Ok(st)
}

/// The node made of `st` and the first `k` lines as the content.
fn node_finish_exec(
    v: &Vec<char>,
    ls: &Vec<(usize, usize)>,
    k: usize,
    st: NodeState,
) -> (res: Result<DecodedNode, JoplinError>)
    requires
        k <= ls.len(),
        ranges_within(ls@, v@.len()),
        st.within(v@.len()),
    ensures
        node_result_matches(res, node_finish(st.props_view(v@), range_views(v@, ls@).take(k as int))),
{
    let tp = match st.tp {
        None => {
            return Err(decode_error(String::from_str("missing node type")));
        },
        Some(tp) => tp,
    };
    let (ia, ib) = match st.id {
        None => {
            return Err(decode_error(String::from_str("missing id")));
        },
        Some(r) => r,
    };
    let contents = if st.encryption_applied {
        if k > 0 {
            return Err(decode_error(String::from_str("malformed encryption")));
        }
        String::from_str("<ENCRYPTED>")
    } else {
        join_ranges(v, ls, k, '\n')
    };
    let parent_id = match st.parent_id {
        Some((pa, pb)) => Some(string_from_range(v, pa, pb)),
        None => None,
    };
    Ok(DecodedNode { contents, tp, id: string_from_range(v, ia, ib), parent_id, props: st.props })
}

/// Decodes the text `s` of the item stored in the file whose name, without
/// extension, is `file_stem`.
pub fn decode_string(s: &str, file_stem: &str) -> (res: Result<DecodedNode, JoplinError>)
    ensures
        node_result_matches(res, decode_node(s@, file_stem@)),
{
    let v = str_chars(s);
    let stem = str_chars(file_stem);
    let ls = line_ranges(&v);
    let mut st = NodeState {
        tp: None,
        id: None,
        parent_id: None,
        encryption_applied: false,
        props: Vec::new(),
    };
    assert(pairs_view(st.props@) =~= Seq::<(Seq<char>, Seq<char>)>::empty());
    let mut i = ls.len();
    assert(range_views(v@, ls@).take(i as int) =~= range_views(v@, ls@));
    while i > 0
        invariant
            i <= ls.len(),
            ranges_within(ls@, v@.len()),
            st.within(v@.len()),
            keys_unique(pairs_view(st.props@)),
            stem@ == file_stem@,
            v@ == s@,
            decode_node(s@, file_stem@) == node_scan(
                range_views(v@, ls@).take(i as int),
                st.props_view(v@),
                file_stem@,
            ),
        decreases i,
    {
        let ghost ls_view = range_views(v@, ls@).take(i as int);
        let (a, b) = ls[i - 1];
        assert(ls_view.last() == v@.subrange(a as int, b as int));
        assert(ls_view.drop_last() =~= range_views(v@, ls@).take(i - 1));
        if a == b {
            return node_finish_exec(&v, &ls, i - 1, st);
        }
        match node_apply_line(&v, a, b, st, &stem) {
            Ok(next) => {
                st = next;
            },
            Err(e) => {
                return Err(e);
            },
        }
        i -= 1;
    }
    node_finish_exec(&v, &ls, 0, st)
}

} // verus!

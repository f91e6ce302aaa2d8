//! The listing of notebooks: each notebook's title, then, indented, its
//! sub-notebooks and the first line of each of its notes.
use std::sync::Arc;
use vstd::prelude::*;

use crate::database::note::JoplinNote;
use crate::database::notebook::{JoplinNotebook, NotebookModel};
use crate::text::{
    find_char, lemma_find_char_bounds, line_ranges, lines, push_char, str_chars, string_from_range,
    strip_cr,
};

verus! {

/// The first of `lines(s)`, or nothing where `s` has no line.
pub open spec fn first_line(s: Seq<char>) -> Seq<char> {
    if lines(s).len() == 0 {
        seq![]
    } else {
        lines(s)[0]
    }
}

/// The prefix of the lines one level further in.
pub open spec fn indent(prefix: Seq<char>) -> Seq<char> {
    prefix + seq![' ', ' ']
}

/// The lines that list `nb` under `prefix`: its title and a colon, then,
/// one level further in, its sub-notebooks and the first line of each note.
pub open spec fn notebook_outline(nb: NotebookModel, prefix: Seq<char>) -> Seq<Seq<char>>
    decreases nb,
{
    seq![prefix + nb.title + seq![':']] + notebooks_outline(nb.notebooks, indent(prefix))
        + nb.notes.map_values(|n: Seq<char>| indent(prefix) + first_line(n))
}

/// The lines that list each of `nbs` in order under `prefix`.
pub open spec fn notebooks_outline(nbs: Seq<NotebookModel>, prefix: Seq<char>) -> Seq<Seq<char>>
    decreases nbs,
{
    if nbs.len() == 0 {
        seq![]
    } else {
        proof {
            assert(decreases_to!(nbs => nbs[nbs.len() - 1]));
            assert(decreases_to!(nbs => nbs.subrange(0, nbs.len() - 1)));
        }
        notebooks_outline(nbs.subrange(0, nbs.len() - 1), prefix) + notebook_outline(
            nbs[nbs.len() - 1],
            prefix,
        )
    }
}

/// The first line of `s` is the part of `s` before its first line break:
/// a prefix with no `\n`, followed by `\n` (and then not ending in `\r`),
/// by `\r\n`, or by the end of `s`.
pub proof fn lemma_first_line(s: Seq<char>)
    ensures
        first_line(s).len() <= s.len(),
        first_line(s) == s.take(first_line(s).len() as int),
        forall|i: int| 0 <= i < first_line(s).len() ==> first_line(s)[i] != '\n',
        first_line(s).len() == s.len() || (s[first_line(s).len() as int] == '\n' && !(first_line(
            s,
        ).len() > 0 && first_line(s).last() == '\r')) || (s[first_line(s).len() as int] == '\r'
            && first_line(s).len() + 1 < s.len() && s[first_line(s).len() + 1int] == '\n'),
{
    if s.len() > 0 {
        lemma_find_char_bounds(s, '\n');
        match find_char(s, '\n') {
            None => {
                assert(lines(s)[0] == s);
                assert(s.take(s.len() as int) =~= s);
            },
            Some(i) => {
                assert(lines(s)[0] == strip_cr(s.take(i)));
                let t = s.take(i);
                if t.len() > 0 && t.last() == '\r' {
                    assert(first_line(s) =~= s.take(i - 1));
                } else {
                    assert(first_line(s) =~= s.take(i));
                }
            },
        }
    }
}

/// The listing of a notebook: first its title and a colon, then, one level
/// further in, the listings of its sub-notebooks, then for each note in
/// order a line with that note's first line.
pub proof fn lemma_notebook_outline_lines(nb: NotebookModel, prefix: Seq<char>)
    ensures
        indent(prefix) == prefix + seq![' ', ' '],
        notebook_outline(nb, prefix).len() == 1 + notebooks_outline(nb.notebooks, indent(prefix)).len() + nb.notes.len(),
        notebook_outline(nb, prefix)[0] == prefix + nb.title + seq![':'],
        forall|j: int|
            0 <= j < notebooks_outline(nb.notebooks, indent(prefix)).len() ==> #[trigger] notebook_outline(
                nb,
                prefix,
            )[1 + j] == notebooks_outline(nb.notebooks, indent(prefix))[j],
        forall|k: int|
            0 <= k < nb.notes.len() ==> #[trigger] notebook_outline(nb, prefix)[1
                + notebooks_outline(nb.notebooks, indent(prefix)).len() + k] == prefix
                + seq![' ', ' '] + first_line(nb.notes[k]),
{
    let subs = notebooks_outline(nb.notebooks, indent(prefix));
    let out = notebook_outline(nb, prefix);
    assert forall|k: int| 0 <= k < nb.notes.len() implies #[trigger] out[1 + subs.len() + k]
        == prefix + seq![' ', ' '] + first_line(nb.notes[k]) by {
        assert(out[1 + subs.len() + k] == nb.notes.map_values(
            |n: Seq<char>| indent(prefix) + first_line(n),
        )[k]);
    }
}

/// The listing of notebooks is the listing of each of them in turn.
pub proof fn lemma_notebooks_outline_append(
    nbs: Seq<NotebookModel>,
    nb: NotebookModel,
    prefix: Seq<char>,
)
    ensures
        notebooks_outline(nbs.push(nb), prefix) == notebooks_outline(nbs, prefix)
            + notebook_outline(nb, prefix),
{
    assert(nbs.push(nb).subrange(0, nbs.len() as int) =~= nbs);
}

/// The texts of a sequence of strings.
pub open spec fn strings_view(v: Seq<String>) -> Seq<Seq<char>> {
    v.map_values(|s: String| s@)
}

/// The first line of `s`, as `s.lines().next().unwrap_or("")` gives it.
pub fn first_line_of(s: &str) -> (res: String)
    ensures
        res@ == first_line(s@),
{
    let v = str_chars(s);
    let rs = line_ranges(&v);
    if rs.len() == 0 {
        String::new()
    } else {
        let r = rs[0];
        assert(lines(v@)[0] == v@.subrange(rs@[0].0 as int, rs@[0].1 as int));
        string_from_range(&v, r.0, r.1)
    }
}

/// Appends to `out` the lines that list `nb` under `prefix`.
pub fn push_notebook_outline(nb: &JoplinNotebook, prefix: &str, out: &mut Vec<String>)
    ensures
        strings_view(final(out)@) == strings_view(old(out)@) + notebook_outline(nb@, prefix@),
    decreases nb@,
{
    let ghost start = strings_view(out@);
    let ghost model = nb@;
    let mut head = prefix.to_owned();
    head.append(nb.get_title());
    push_char(&mut head, ':');
    assert(head@ =~= prefix@ + model.title + seq![':']);
    out.push(head);
    let ghost first = seq![prefix@ + model.title + seq![':']];
    assert(strings_view(out@) =~= start + first);
    let mut inner = prefix.to_owned();
    push_char(&mut inner, ' ');
    push_char(&mut inner, ' ');
    assert(inner@ =~= indent(prefix@));
    let subs = nb.get_notebooks();
    let mut i: usize = 0;
    while i < subs.len()
        invariant
            i <= subs.len(),
            model == nb@,
            inner@ == indent(prefix@),
            model.notebooks == subs@.map_values(|n: JoplinNotebook| n@),
            strings_view(out@) == start + first + notebooks_outline(
                model.notebooks.take(i as int),
                inner@,
            ),
        decreases subs.len() - i,
    {
        let ghost taken = model.notebooks.take(i + 1);
        assert(taken.subrange(0, i as int) =~= model.notebooks.take(i as int));
        assert(taken[i as int] == subs@[i as int]@);
        proof {
            assert(decreases_to!(model => model.notebooks));
            assert(decreases_to!(model.notebooks => model.notebooks[i as int]));
        }
        push_notebook_outline(&subs[i], inner.as_str(), out);
        assert(strings_view(out@) =~= start + first + notebooks_outline(taken, inner@));
        i += 1;
    }
    assert(model.notebooks.take(subs.len() as int) =~= model.notebooks);
    let ghost mid = strings_view(out@);
    let notes = nb.get_notes();
    let mut j: usize = 0;
    while j < notes.len()
        invariant
            j <= notes.len(),
            model == nb@,
            inner@ == indent(prefix@),
            model.notes == notes@.map_values(|n: Arc<JoplinNote>| n@),
            strings_view(out@) == mid + model.notes.take(j as int).map_values(
                |n: Seq<char>| indent(prefix@) + first_line(n),
            ),
        decreases notes.len() - j,
    {
        let mut line = inner.clone();
        let first = first_line_of(notes[j].get_contents());
        line.append(first.as_str());
        let ghost before = strings_view(out@);
        let ghost text = line@;
        out.push(line);
        assert(model.notes.take(j + 1).map_values(|n: Seq<char>| indent(prefix@) + first_line(n))
            =~= model.notes.take(j as int).map_values(
            |n: Seq<char>| indent(prefix@) + first_line(n),
        ).push(indent(prefix@) + first_line(model.notes[j as int])));
        assert(strings_view(out@) =~= before.push(text));
        j += 1;
    }
    assert(model.notes.take(notes.len() as int) =~= model.notes);
    assert(strings_view(out@) =~= start + notebook_outline(model, prefix@));
}

} // verus!

//! Notebooks: folders with their sub-notebooks and notes.
use std::sync::Arc;
use vstd::prelude::*;

use crate::database::note::{body_string, body_text, note_of, JoplinNote};
use crate::database::{children_in, mds_view, Cache, Groups};
use crate::decoder::md::{DecodedMd, DecodedMdType, MdBodyView, MdView};

verus! {

/// A notebook as text: its title, its sub-notebooks and the texts of its notes.
pub struct NotebookModel {
    pub title: Seq<char>,
    pub notebooks: Seq<NotebookModel>,
    pub notes: Seq<Seq<char>>,
}

/// Whether an item is a folder that is not deleted.
pub open spec fn is_live_folder(d: MdView) -> bool {
    d.tp == DecodedMdType::Folder && d.deleted_time is None
}

/// The notes among `cs`, in order.
pub open spec fn notes_of(cs: Seq<MdView>) -> Seq<Seq<char>>
    decreases cs.len(),
{
    if cs.len() == 0 {
        seq![]
    } else {
        match note_of(cs.last()) {
            Some(n) => notes_of(cs.drop_last()).push(n),
            None => notes_of(cs.drop_last()),
        }
    }
}

/// The notebook that `d` is, if it is a folder that is not deleted. Its
/// sub-notebooks are built `depth` levels down; below that a notebook
/// shows its notes only.
pub open spec fn notebook_tree(g: Groups, d: MdView, depth: nat) -> Option<NotebookModel>
    decreases depth, 0nat,
{
    if is_live_folder(d) {
        let cs = children_in(g, Some(d.id));
        Some(
            NotebookModel {
                title: body_text(d.body),
                notebooks: if depth == 0 {
                    seq![]
                } else {
                    sub_notebooks(g, cs, (depth - 1) as nat)
                },
                notes: notes_of(cs),
            },
        )
    } else {
        None
    }
}

/// The notebooks among `cs`, in order, each built `depth` levels down.
pub open spec fn sub_notebooks(g: Groups, cs: Seq<MdView>, depth: nat) -> Seq<NotebookModel>
    decreases depth, cs.len() + 1,
{
    if cs.len() == 0 {
        seq![]
    } else {
        match notebook_tree(g, cs.last(), depth) {
            Some(n) => sub_notebooks(g, cs.drop_last(), depth).push(n),
            None => sub_notebooks(g, cs.drop_last(), depth),
        }
    }
}

/// A notebook is made exactly of a folder that is not deleted; its title
/// is the folder's whole text, or the marker `<ENCRYPTED>` where the folder
/// is encrypted: what a note with the same body shows.
pub proof fn lemma_notebook_title(g: Groups, d: MdView, depth: nat)
    ensures
        notebook_tree(g, d, depth) is Some <==> (d.tp == DecodedMdType::Folder && d.deleted_time is None),
        notebook_tree(g, d, depth) matches Some(nb) ==> match d.body {
            MdBodyView::Unencrypted(t) => nb.title == t,
            MdBodyView::Encrypted(_) => nb.title == "<ENCRYPTED>"@,
        },
        notebook_tree(g, d, depth) matches Some(nb) ==> note_of(
            MdView { tp: DecodedMdType::Note, ..d },
        ) == Some(nb.title),
{
}

/// A notebook.
pub struct JoplinNotebook {
    title: String,
    notebooks: Vec<JoplinNotebook>,
    notes: Vec<Arc<JoplinNote>>,
}

impl View for JoplinNotebook {
    type V = NotebookModel;

    closed spec fn view(&self) -> NotebookModel
        decreases self,
    {
        NotebookModel {
            title: self.title@,
            notebooks: Seq::new(
                self.notebooks@.len(),
                |i: int|
                    if 0 <= i < self.notebooks@.len() {
                        proof {
                            assert(decreases_to!(self.notebooks@ => self.notebooks@[i]));
                        }
                        self.notebooks@[i].view()
                    } else {
                        NotebookModel { title: seq![], notebooks: seq![], notes: seq![] }
                    },
            ),
            notes: Seq::new(self.notes@.len(), |i: int| self.notes@[i]@),
        }
    }
}

pub open spec fn notebooks_view(s: Seq<JoplinNotebook>) -> Seq<NotebookModel> {
    s.map_values(|n: JoplinNotebook| n@)
}

pub open spec fn notes_view(s: Seq<Arc<JoplinNote>>) -> Seq<Seq<char>> {
    s.map_values(|n: Arc<JoplinNote>| n@)
}

impl JoplinNotebook {
    proof fn lemma_view(&self)
        ensures
            self@.title == self.title@,
            self@.notebooks == notebooks_view(self.notebooks@),
            self@.notes == notes_view(self.notes@),
    {
        assert(self@.notebooks =~= notebooks_view(self.notebooks@));
        assert(self@.notes =~= notes_view(self.notes@));
    }

    /// The notebook that `d` is, if it is a folder that is not deleted,
    /// built `depth` levels down.
    fn from_md_depth(d: &DecodedMd, cache: &Cache, depth: usize) -> (res: Option<
        JoplinNotebook,
    >)
        requires
            cache.wf(),
        ensures
            match res {
                Some(n) => notebook_tree(cache@, d@, depth as nat) == Some(n@),
                None => notebook_tree(cache@, d@, depth as nat) is None,
            },
        decreases depth,
    {
        if !(d.tp == DecodedMdType::Folder && d.deleted_time.is_none()) {
            return None;
        }
        let key = Some(d.id.clone());
        let cs = cache.get_children(&key);
        let ghost csv = children_in(cache@, Some(d@.id));
        assert(mds_view(cs@) == csv);
        let mut notebooks: Vec<JoplinNotebook> = Vec::new();
        let mut notes: Vec<Arc<JoplinNote>> = Vec::new();
        let mut i: usize = 0;
        while i < cs.len()
            invariant
                cache.wf(),
                i <= cs.len(),
                mds_view(cs@) == csv,
                notes_view(notes@) == notes_of(csv.take(i as int)),
                depth > 0 ==> notebooks_view(notebooks@) == sub_notebooks(
                    cache@,
                    csv.take(i as int),
                    (depth - 1) as nat,
                ),
                depth == 0 ==> notebooks@.len() == 0,
            decreases cs.len() - i,
        {
            let c = &cs[i];
            let ghost prefix = csv.take(i + 1);
            assert(prefix.drop_last() =~= csv.take(i as int));
            assert(prefix.last() == c@);
            if let Some(n) = JoplinNote::from_md(c) {
                notes.push(n);
                assert(notes_view(notes@) =~= notes_of(csv.take(i as int)).push(n@));
            } else {
                assert(notes_view(notes@) =~= notes_of(prefix));
            }
            if depth > 0 {
                if let Some(nb) = Self::from_md_depth(c, cache, depth - 1) {
                    notebooks.push(nb);
                    assert(notebooks_view(notebooks@) =~= sub_notebooks(
                        cache@,
                        csv.take(i as int),
                        (depth - 1) as nat,
                    ).push(nb@));
                }
            }
            i += 1;
        }
        assert(csv.take(cs.len() as int) =~= csv);
        let res = JoplinNotebook { title: body_string(&d.body), notebooks, notes };
        proof {
            res.lemma_view();
            if depth == 0 {
                assert(notebooks_view(res.notebooks@) =~= Seq::<NotebookModel>::empty());
            }
        }
        Some(res)
    }

    /// The notebook that `d` is, if it is a folder that is not deleted,
    /// built as many levels down as the cache has parents.
    pub fn from_md(d: &DecodedMd, cache: &Cache) -> (res: Option<JoplinNotebook>)
        requires
            cache.wf(),
        ensures
            match res {
                Some(n) => notebook_tree(cache@, d@, cache@.dom().len()) == Some(n@),
                None => notebook_tree(cache@, d@, cache@.dom().len()) is None,
            },
    {
        let depth = cache.num_parents();
        Self::from_md_depth(d, cache, depth)
    }

    /// The title.
    pub fn get_title(&self) -> (res: &str)
        ensures
            res@ == self@.title,
    {
        proof {
            self.lemma_view();
        }
        self.title.as_str()
    }

    /// The sub-notebooks.
    pub fn get_notebooks(&self) -> (res: &Vec<JoplinNotebook>)
        ensures
            notebooks_view(res@) == self@.notebooks,
    {
        proof {
            self.lemma_view();
        }
        &self.notebooks
    }

    /// The notes.
    pub fn get_notes(&self) -> (res: &Vec<Arc<JoplinNote>>)
        ensures
            notes_view(res@) == self@.notes,
    {
        proof {
            self.lemma_view();
        }
        &self.notes
    }
}

} // verus!

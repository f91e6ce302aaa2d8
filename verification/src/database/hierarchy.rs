//! Properties of the folder hierarchy: how items are grouped under their
//! parents, and that the hierarchy is built in full.
use vstd::prelude::*;
use vstd::set_lib::lemma_len_subset;

use crate::database::notebook::{notebook_tree, sub_notebooks, is_live_folder};
use crate::database::{children_in, group_by_parent, root_notebooks};
use crate::decoder::md::MdView;

verus! {

/// Whether an item's parent is `p`.
pub open spec fn has_parent(p: Option<Seq<char>>) -> spec_fn(MdView) -> bool {
    |d: MdView| d.parent_id == p
}

/// The parent ids that occur among `ms`.
pub open spec fn parent_ids(ms: Seq<MdView>) -> Set<Option<Seq<char>>> {
    ms.map_values(|d: MdView| d.parent_id).to_set()
}

/// No two items have the same id.
pub open spec fn ids_distinct(ms: Seq<MdView>) -> bool {
    forall|i: int, j: int| 0 <= i < j < ms.len() ==> (#[trigger] ms[i]).id != (#[trigger] ms[j]).id
}

/// Grouping by parent keeps, under each parent id, exactly the items with
/// that parent, in their order; the groups are those of the parent ids
/// that occur.
pub proof fn lemma_group_by_parent(ms: Seq<MdView>)
    ensures
        forall|p: Option<Seq<char>>|
            #[trigger] children_in(group_by_parent(ms), p) == ms.filter(has_parent(p)),
        group_by_parent(ms).dom() == parent_ids(ms),
        group_by_parent(ms).dom().finite(),
    decreases ms.len(),
{
    broadcast use vstd::seq_lib::group_seq_properties;

    reveal(Seq::filter);
    if ms.len() == 0 {
        assert(parent_ids(ms) =~= Set::<Option<Seq<char>>>::empty());
        assert forall|p: Option<Seq<char>>|
            #[trigger] children_in(group_by_parent(ms), p) == ms.filter(has_parent(p)) by {
            assert(ms.filter(has_parent(p)) =~= Seq::<MdView>::empty());
        }
    } else {
        let rest = ms.drop_last();
        let d = ms.last();
        lemma_group_by_parent(rest);
        assert(rest.push(d) =~= ms);
        assert forall|p: Option<Seq<char>>|
            #[trigger] children_in(group_by_parent(ms), p) == ms.filter(has_parent(p)) by {
            rest.lemma_filter_push(d, has_parent(p));
            assert(children_in(group_by_parent(rest), p) == rest.filter(has_parent(p)));
        }
        let f = |e: MdView| e.parent_id;
        rest.lemma_push_map_commute(f, d);
        rest.map_values(f).lemma_push_to_set_commute(d.parent_id);
        assert(group_by_parent(ms).dom() =~= parent_ids(ms));
    }
}

/// The items grouped under `p` are items of `ms` whose parent is `p`.
proof fn lemma_children_members(ms: Seq<MdView>, p: Option<Seq<char>>)
    ensures
        forall|j: int|
            0 <= j < children_in(group_by_parent(ms), p).len() ==> ms.contains(
                #[trigger] children_in(group_by_parent(ms), p)[j],
            ) && children_in(group_by_parent(ms), p)[j].parent_id == p,
{
    lemma_group_by_parent(ms);
    let cs = ms.filter(has_parent(p));
    assert forall|j: int| 0 <= j < cs.len() implies ms.contains(#[trigger] cs[j])
        && cs[j].parent_id == p by {
        ms.lemma_filter_pred(has_parent(p), j);
        assert(cs.contains(cs[j]));
        ms.lemma_filter_contains_rev(has_parent(p), cs[j]);
    }
}

/// A path of items of `ms` from the top of the hierarchy down: the first
/// has no parent and each next one is a child of the one before.
#[verifier::opaque]
pub open spec fn is_path(ms: Seq<MdView>, path: Seq<MdView>) -> bool {
    &&& path.len() > 0
    &&& path[0].parent_id is None
    &&& forall|j: int| 0 <= j < path.len() ==> ms.contains(#[trigger] path[j])
    &&& forall|j: int| 1 <= j < path.len() ==> (#[trigger] path[j]).parent_id == Some(path[j - 1].id)
}

/// The items of `path` have distinct ids.
pub open spec fn path_ids_distinct(path: Seq<MdView>) -> bool {
    forall|a: int, b: int|
        0 <= a < b < path.len() ==> (#[trigger] path[a]).id != (#[trigger] path[b]).id
}

/// No path from the top passes the same id twice: the parent links have no
/// cycle that the top reaches.
#[verifier::opaque]
pub open spec fn paths_acyclic(ms: Seq<MdView>) -> bool {
    forall|path: Seq<MdView>| #[trigger] is_path(ms, path) ==> path_ids_distinct(path)
}

/// Items with distinct ids have acyclic parent links.
pub proof fn lemma_distinct_ids_acyclic(ms: Seq<MdView>)
    requires
        ids_distinct(ms),
    ensures
        paths_acyclic(ms),
{
    reveal(paths_acyclic);
    assert forall|path: Seq<MdView>| #[trigger] is_path(ms, path) implies path_ids_distinct(
        path,
    ) by {
        assert forall|a: int, b: int| 0 <= a < b < path.len() implies (#[trigger] path[a]).id
            != (#[trigger] path[b]).id by {
            lemma_path_distinct(ms, path, a, b);
        }
    }
}

proof fn lemma_acyclic_path(ms: Seq<MdView>, path: Seq<MdView>, a: int, b: int)
    requires
        paths_acyclic(ms),
        is_path(ms, path),
        0 <= a < b < path.len(),
    ensures
        path[a].id != path[b].id,
{
    reveal(paths_acyclic);
    assert(path_ids_distinct(path));
}

proof fn lemma_same_id_same_item(ms: Seq<MdView>, x: MdView, y: MdView)
    requires
        ids_distinct(ms),
        ms.contains(x),
        ms.contains(y),
        x.id == y.id,
    ensures
        x == y,
{
    let i = choose|i: int| 0 <= i < ms.len() && ms[i] == x;
    let k = choose|k: int| 0 <= k < ms.len() && ms[k] == y;
    if i < k {
        assert(ms[i].id != ms[k].id);
    } else if k < i {
        assert(ms[k].id != ms[i].id);
    }
}

/// The items of a path have distinct ids.
proof fn lemma_path_distinct(ms: Seq<MdView>, path: Seq<MdView>, a: int, b: int)
    requires
        ids_distinct(ms),
        is_path(ms, path),
        0 <= a < b < path.len(),
    ensures
        path[a].id != path[b].id,
    decreases a,
{
    reveal(is_path);
    if path[a].id == path[b].id {
        assert(ms.contains(path[a]) && ms.contains(path[b]));
        lemma_same_id_same_item(ms, path[a], path[b]);
        assert(path[b].parent_id == Some(path[b - 1].id));
        if a > 0 {
            assert(path[a].parent_id == Some(path[a - 1].id));
            lemma_path_distinct(ms, path, a - 1, b - 1);
        }
    }
}

/// A path whose last item has children names as many groups as it has
/// items, and one more for the top.
proof fn lemma_path_groups(ms: Seq<MdView>, path: Seq<MdView>, c: MdView)
    requires
        paths_acyclic(ms),
        is_path(ms, path),
        ms.contains(c),
        c.parent_id == Some(path.last().id),
    ensures
        group_by_parent(ms).dom().len() >= path.len() + 1,
{
    reveal(is_path);
    lemma_group_by_parent(ms);
    let keys: Seq<Option<Seq<char>>> = seq![None].add(
        path.map_values(|e: MdView| Some(e.id)),
    );
    let f = |e: MdView| e.parent_id;
    assert forall|k: int| 0 <= k < keys.len() implies #[trigger] parent_ids(ms).contains(
        keys[k],
    ) by {
        let i = if k == 0 {
            choose|i: int| 0 <= i < ms.len() && ms[i] == path[0]
        } else if k < path.len() {
            choose|i: int| 0 <= i < ms.len() && ms[i] == path[k]
        } else {
            choose|i: int| 0 <= i < ms.len() && ms[i] == c
        };
        if k == 0 {
            assert(ms.contains(path[0]));
        } else if k < path.len() {
            assert(ms.contains(path[k]));
        }
        assert(ms.map_values(f)[i] == keys[k]);
        assert(ms.map_values(f).contains(keys[k]));
    }
    assert forall|a: int, b: int| 0 <= a < b < keys.len() implies keys[a] != keys[b] by {
        if a > 0 {
            lemma_acyclic_path(ms, path, a - 1, b - 1);
        }
    }
    assert(keys.no_duplicates());
    keys.unique_seq_to_set();
    assert(keys.to_set().subset_of(parent_ids(ms)));
    lemma_len_subset(keys.to_set(), parent_ids(ms));
}

/// A notebook reached from the top along `path` is complete once the
/// path's length and the depth reach the number of groups: building it
/// deeper gives the same notebook. So a sub-notebook is the notebook that
/// its folder gives on its own.
pub proof fn lemma_tree_stable(ms: Seq<MdView>, path: Seq<MdView>, depth: nat, extra: nat)
    requires
        paths_acyclic(ms),
        is_path(ms, path),
        path.len() + depth >= group_by_parent(ms).dom().len(),
    ensures
        notebook_tree(group_by_parent(ms), path.last(), depth) == notebook_tree(
            group_by_parent(ms),
            path.last(),
            depth + extra,
        ),
    decreases depth, 0nat,
{
    let g = group_by_parent(ms);
    let d = path.last();
    if is_live_folder(d) {
        let cs = children_in(g, Some(d.id));
        lemma_children_members(ms, Some(d.id));
        if depth == 0 {
            if cs.len() > 0 {
                let c = cs[0];
                lemma_path_groups(ms, path, c);
            }
            assert(sub_notebooks(g, cs, (extra - 1) as nat) =~= Seq::<
                super::notebook::NotebookModel,
            >::empty());
        } else {
            lemma_subs_stable(ms, path, cs, (depth - 1) as nat, extra);
        }
    }
}

/// The sub-notebooks among children `cs` of the last item of `path`.
proof fn lemma_subs_stable(
    ms: Seq<MdView>,
    path: Seq<MdView>,
    cs: Seq<MdView>,
    depth: nat,
    extra: nat,
)
    requires
        paths_acyclic(ms),
        is_path(ms, path),
        forall|j: int|
            0 <= j < cs.len() ==> ms.contains(#[trigger] cs[j]) && cs[j].parent_id == Some(
                path.last().id,
            ),
        path.len() + 1 + depth >= group_by_parent(ms).dom().len(),
    ensures
        sub_notebooks(group_by_parent(ms), cs, depth) == sub_notebooks(
            group_by_parent(ms),
            cs,
            depth + extra,
        ),
    decreases depth, cs.len() + 1,
{
    reveal(is_path);
    if cs.len() > 0 {
        let c = cs.last();
        lemma_subs_stable(ms, path, cs.drop_last(), depth, extra);
        let p2 = path.push(c);
        assert(is_path(ms, p2)) by {
            assert forall|j: int| 0 <= j < p2.len() implies ms.contains(#[trigger] p2[j]) by {
                if j < path.len() {
                    assert(p2[j] == path[j]);
                }
            }
            assert forall|j: int| 1 <= j < p2.len() implies (#[trigger] p2[j]).parent_id == Some(
                p2[j - 1].id,
            ) by {
                if j < path.len() {
                    assert(p2[j] == path[j]);
                }
            }
        }
        lemma_tree_stable(ms, p2, depth, extra);
    }
}

/// The notebooks among the top items `cs`.
proof fn lemma_roots_stable(ms: Seq<MdView>, cs: Seq<MdView>, depth: nat, extra: nat)
    requires
        paths_acyclic(ms),
        forall|j: int| 0 <= j < cs.len() ==> ms.contains(#[trigger] cs[j]) && cs[j].parent_id is None,
        1 + depth >= group_by_parent(ms).dom().len(),
    ensures
        sub_notebooks(group_by_parent(ms), cs, depth) == sub_notebooks(
            group_by_parent(ms),
            cs,
            depth + extra,
        ),
    decreases cs.len(),
{
    reveal(is_path);
    if cs.len() > 0 {
        let c = cs.last();
        lemma_roots_stable(ms, cs.drop_last(), depth, extra);
        assert(is_path(ms, seq![c]));
        lemma_tree_stable(ms, seq![c], depth, extra);
    }
}

/// Where no path from the top passes the same id twice (as where item ids
/// are distinct), the folder hierarchy is built in full: building it any
/// number of levels deeper gives the same notebooks.
pub proof fn lemma_root_notebooks_complete(ms: Seq<MdView>, extra: nat)
    requires
        paths_acyclic(ms),
    ensures
        root_notebooks(ms) == sub_notebooks(
            group_by_parent(ms),
            children_in(group_by_parent(ms), None),
            group_by_parent(ms).dom().len() + extra,
        ),
{
    let g = group_by_parent(ms);
    let cs = children_in(g, None);
    lemma_children_members(ms, None);
    lemma_roots_stable(ms, cs, g.dom().len(), extra);
}

/// A folder reached from the top has, as the notebook that its parent
/// holds for it, the very notebook it gives on its own: what `from_md`
/// builds for the parent one level less deep equals what it builds for
/// the folder.
pub proof fn lemma_sub_notebook_is_own_notebook(ms: Seq<MdView>, path: Seq<MdView>)
    requires
        paths_acyclic(ms),
        is_path(ms, path),
        path.len() >= 2,
    ensures
        notebook_tree(
            group_by_parent(ms),
            path.last(),
            (group_by_parent(ms).dom().len() - 1) as nat,
        ) == notebook_tree(group_by_parent(ms), path.last(), group_by_parent(ms).dom().len()),
{
    let n = group_by_parent(ms).dom().len();
    if n == 0 {
        assert(ms.contains(path[0])) by {
            reveal(is_path);
        }
        lemma_group_by_parent(ms);
        let i = choose|i: int| 0 <= i < ms.len() && ms[i] == path[0];
        let f = |d: MdView| d.parent_id;
        assert(ms.map_values(f)[i] == path[0].parent_id);
        assert(parent_ids(ms).contains(path[0].parent_id));
    }
    lemma_tree_stable(ms, path, (n - 1) as nat, 1);
}

/// The sub-notebooks of a notebook reached from the top are, in order, the
/// notebooks that its child folders give on their own (what `from_md`
/// builds for each of them).
pub proof fn lemma_sub_notebooks_are_own_notebooks(ms: Seq<MdView>, path: Seq<MdView>)
    requires
        paths_acyclic(ms),
        is_path(ms, path),
    ensures
        notebook_tree(group_by_parent(ms), path.last(), group_by_parent(ms).dom().len()) matches Some(
            nb,
        ) ==> nb.notebooks == sub_notebooks(
            group_by_parent(ms),
            children_in(group_by_parent(ms), Some(path.last().id)),
            group_by_parent(ms).dom().len(),
        ),
{
    let g = group_by_parent(ms);
    let n = g.dom().len();
    assert(ms.contains(path[0])) by {
        reveal(is_path);
    }
    lemma_group_by_parent(ms);
    let i = choose|i: int| 0 <= i < ms.len() && ms[i] == path[0];
    let f = |d: MdView| d.parent_id;
    assert(ms.map_values(f)[i] == path[0].parent_id);
    assert(parent_ids(ms).contains(path[0].parent_id));
    vstd::set_lib::lemma_set_empty_equivalency_len(g.dom());
    assert(n > 0);
    let cs = children_in(g, Some(path.last().id));
    lemma_children_members(ms, Some(path.last().id));
    lemma_subs_stable(ms, path, cs, (n - 1) as nat, 1);
}

/// The notebooks at the top are, in the order of the items, the notebooks
/// that the items without a parent give, each built as `from_md` builds it
/// over the grouped items: those of the folders that are not deleted.
pub proof fn lemma_root_notebooks_of_top_items(ms: Seq<MdView>)
    ensures
        root_notebooks(ms) == sub_notebooks(
            group_by_parent(ms),
            ms.filter(has_parent(None)),
            group_by_parent(ms).dom().len(),
        ),
{
    lemma_group_by_parent(ms);
    assert(children_in(group_by_parent(ms), None) == ms.filter(has_parent(None)));
}

} // verus!

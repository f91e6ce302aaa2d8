//! The notebooks and notes of a Joplin directory.
pub mod hierarchy;
pub mod master_key;
pub mod note;
pub mod notebook;
pub mod outline;

use vstd::prelude::*;

use crate::database::master_key::{
    content_view, key_error_matches, load_key, JoplinMasterKey, KeyLoadError, MasterKeyView,
};
use crate::database::notebook::{notebooks_view, sub_notebooks, JoplinNotebook, NotebookModel};
use crate::database::outline::{notebooks_outline, push_notebook_outline, strings_view};
use crate::decoder::json::DecodedMasterKey;
use crate::decoder::md::{opt_string_view, DecodedMd, MdView};
use crate::encryption::EncryptedContent;
use crate::error::JoplinError;
use crate::password::JoplinPasswordProvider;
use crate::text::push_char;

verus! {

/// The items as text.
pub open spec fn mds_view(s: Seq<DecodedMd>) -> Seq<MdView> {
    s.map_values(|d: DecodedMd| d@)
}

/// Items grouped by parent: for each parent id, its items in order.
pub type Groups = Map<Option<Seq<char>>, Seq<MdView>>;

/// The items of `g` under `parent`.
pub open spec fn children_in(g: Groups, parent: Option<Seq<char>>) -> Seq<MdView> {
    if g.contains_key(parent) {
        g[parent]
    } else {
        seq![]
    }
}

/// `ms` grouped by parent, each group in the order of `ms`.
pub open spec fn group_by_parent(ms: Seq<MdView>) -> Groups
    decreases ms.len(),
{
    if ms.len() == 0 {
        Map::empty()
    } else {
        let g = group_by_parent(ms.drop_last());
        let d = ms.last();
        g.insert(d.parent_id, children_in(g, d.parent_id).push(d))
    }
}

/// The items of one parent, under that parent's id.
pub type CacheEntry = (Option<String>, Vec<DecodedMd>);

/// The groups that a list of entries holds.
pub open spec fn entries_groups(es: Seq<CacheEntry>) -> Groups
    decreases es.len(),
{
    if es.len() == 0 {
        Map::empty()
    } else {
        entries_groups(es.drop_last()).insert(
            opt_string_view(es.last().0),
            mds_view(es.last().1@),
        )
    }
}

/// No two entries are for the same parent.
pub open spec fn entries_keys_unique(es: Seq<CacheEntry>) -> bool {
    forall|i: int, j: int|
        0 <= i < j < es.len() ==> opt_string_view((#[trigger] es[i]).0) != opt_string_view(
            (#[trigger] es[j]).0,
        )
}

/// The items of a directory, grouped by the id of their parent.
pub struct Cache {
    children: Vec<CacheEntry>,
    empty: Vec<DecodedMd>,
}

impl View for Cache {
    type V = Groups;

    closed spec fn view(&self) -> Groups {
        entries_groups(self.children@)
    }
}

proof fn lemma_entries_groups(es: Seq<CacheEntry>)
    requires
        entries_keys_unique(es),
    ensures
        entries_groups(es).dom().finite(),
        entries_groups(es).dom().len() == es.len(),
        forall|i: int|
            0 <= i < es.len() ==> #[trigger] entries_groups(es).contains_key(
                opt_string_view(es[i].0),
            ) && entries_groups(es)[opt_string_view(es[i].0)] == mds_view(es[i].1@),
        forall|p: Option<Seq<char>>|
            #[trigger] entries_groups(es).contains_key(p) ==> exists|i: int|
                0 <= i < es.len() && opt_string_view(es[i].0) == p,
    decreases es.len(),
{
    if es.len() > 0 {
        let rest = es.drop_last();
        assert(entries_keys_unique(rest)) by {
            assert forall|i: int, j: int| 0 <= i < j < rest.len() implies opt_string_view(
                (#[trigger] rest[i]).0,
            ) != opt_string_view((#[trigger] rest[j]).0) by {
                assert(rest[i] == es[i] && rest[j] == es[j]);
            }
        }
        lemma_entries_groups(rest);
        let k = opt_string_view(es.last().0);
        assert(!entries_groups(rest).contains_key(k)) by {
            if entries_groups(rest).contains_key(k) {
                let i = choose|i: int| 0 <= i < rest.len() && opt_string_view(rest[i].0) == k;
                assert(es[i] == rest[i]);
                assert(opt_string_view(es[i].0) != opt_string_view(es[es.len() - 1].0));
            }
        }
        assert forall|i: int| 0 <= i < es.len() implies #[trigger] entries_groups(
            es,
        ).contains_key(opt_string_view(es[i].0)) && entries_groups(es)[opt_string_view(es[i].0)]
            == mds_view(es[i].1@) by {
            if i < es.len() - 1 {
                assert(es[i] == rest[i]);
                assert(opt_string_view(es[i].0) != k);
            }
        }
        assert forall|p: Option<Seq<char>>| #[trigger]
            entries_groups(es).contains_key(p) implies exists|i: int|
            0 <= i < es.len() && opt_string_view(es[i].0) == p by {
            if p != k {
                let i = choose|i: int| 0 <= i < rest.len() && opt_string_view(rest[i].0) == p;
                assert(es[i] == rest[i]);
            } else {
                assert(opt_string_view(es[es.len() - 1].0) == p);
            }
        }
    }
}

fn clone_opt_string(o: &Option<String>) -> (res: Option<String>)
    ensures
        opt_string_view(res) == opt_string_view(*o),
{
    match o {
        Some(s) => Some(s.clone()),
        None => None,
    }
}

fn opt_string_eq(a: &Option<String>, b: &Option<String>) -> (res: bool)
    ensures
        res == (opt_string_view(*a) == opt_string_view(*b)),
{
    match (a, b) {
        (Some(x), Some(y)) => *x == *y,
        (None, None) => true,
        _ => false,
    }
}

impl Cache {
    /// The entries have distinct keys and the empty list is empty.
    pub closed spec fn wf(&self) -> bool {
        &&& entries_keys_unique(self.children@)
        &&& self.empty@.len() == 0
    }

    /// An empty cache.
    pub fn new() -> (res: Cache)
        ensures
            res.wf(),
            res@ == Groups::empty(),
    {
        Cache { children: Vec::new(), empty: Vec::new() }
    }

    /// The number of parents that have items.
    pub fn num_parents(&self) -> (res: usize)
        requires
            self.wf(),
        ensures
            self@.dom().finite(),
            res == self@.dom().len(),
    {
        proof {
            lemma_entries_groups(self.children@);
        }
        self.children.len()
    }

    /// The position of the entry for `parent_id`.
    fn find(&self, parent_id: &Option<String>) -> (res: Option<usize>)
        requires
            self.wf(),
        ensures
            match res {
                Some(i) => i < self.children@.len() && opt_string_view(self.children@[i as int].0)
                    == opt_string_view(*parent_id),
                None => !self@.contains_key(opt_string_view(*parent_id)),
            },
    {
        proof {
            lemma_entries_groups(self.children@);
        }
        let mut i: usize = 0;
        while i < self.children.len()
            invariant
                i <= self.children.len(),
                forall|j: int|
                    0 <= j < i ==> opt_string_view(self.children@[j].0) != opt_string_view(
                        *parent_id,
                    ),
            decreases self.children.len() - i,
        {
            if opt_string_eq(&self.children[i].0, parent_id) {
                return Some(i);
            }
            i += 1;
        }
        None
    }

    /// The items whose parent is `parent_id`, in the order they were added.
    pub fn get_children(&self, parent_id: &Option<String>) -> (res: &Vec<DecodedMd>)
        requires
            self.wf(),
        ensures
            mds_view(res@) == children_in(self@, opt_string_view(*parent_id)),
    {
        proof {
            lemma_entries_groups(self.children@);
        }
        match self.find(parent_id) {
            Some(i) => &self.children[i].1,
            None => {
                assert(mds_view(self.empty@) =~= Seq::<MdView>::empty());
                &self.empty
            },
        }
    }

    /// The list of the items whose parent is `parent_id`, to add to; an
    /// empty list is made for a parent that has none yet.
    pub fn get_children_mut(&mut self, parent_id: &Option<String>) -> (res: &mut Vec<DecodedMd>)
        requires
            old(self).wf(),
        ensures
            final(self).wf(),
            mds_view(res@) == children_in(old(self)@, opt_string_view(*parent_id)),
            final(self)@ == old(self)@.insert(opt_string_view(*parent_id), mds_view(final(res)@)),
    {
        proof {
            lemma_entries_groups(self.children@);
        }
        match self.find(parent_id) {
            Some(i) => {
                let ghost es = self.children@;
                proof {
                    lemma_update_groups(es, i as int);
                }
                &mut self.children[i].1
            },
            None => {
                let ghost es = self.children@;
                self.children.push((clone_opt_string(parent_id), Vec::new()));
                let n = self.children.len();
                assert(self.children@.drop_last() == es);
                assert(entries_keys_unique(self.children@)) by {
                    assert forall|a: int, b: int|
                        0 <= a < b < self.children@.len() implies opt_string_view(
                        (#[trigger] self.children@[a]).0,
                    ) != opt_string_view((#[trigger] self.children@[b]).0) by {
                        if b == n - 1 {
                            assert(entries_groups(es).contains_key(
                                opt_string_view(es[a].0),
                            ));
                        } else {
                            assert(self.children@[a] == es[a] && self.children@[b] == es[b]);
                        }
                    }
                }
                proof {
                    lemma_push_groups(self.children@);
                }
                assert(mds_view(self.children@[n - 1].1@) =~= Seq::<MdView>::empty());
                &mut self.children[n - 1].1
            },
        }
    }
}

/// Replacing the items of one entry changes only that group.
proof fn lemma_update_groups(es: Seq<CacheEntry>, i: int)
    requires
        entries_keys_unique(es),
        0 <= i < es.len(),
    ensures
        forall|v: Vec<DecodedMd>|
            #![trigger es.update(i, (es[i].0, v))]
            entries_keys_unique(es.update(i, (es[i].0, v))) && entries_groups(
                es.update(i, (es[i].0, v)),
            ) == entries_groups(es).insert(opt_string_view(es[i].0), mds_view(v@)),
    decreases es.len(),
{
    assert forall|v: Vec<DecodedMd>|
        #![trigger es.update(i, (es[i].0, v))]
        entries_keys_unique(es.update(i, (es[i].0, v))) && entries_groups(
            es.update(i, (es[i].0, v)),
        ) == entries_groups(es).insert(opt_string_view(es[i].0), mds_view(v@)) by {
        lemma_update_groups_one(es, i, v);
    }
}

proof fn lemma_update_groups_one(es: Seq<CacheEntry>, i: int, v: Vec<DecodedMd>)
    requires
        entries_keys_unique(es),
        0 <= i < es.len(),
    ensures
        entries_keys_unique(es.update(i, (es[i].0, v))),
        entries_groups(es.update(i, (es[i].0, v))) == entries_groups(es).insert(
            opt_string_view(es[i].0),
            mds_view(v@),
        ),
    decreases es.len(),
{
    let es2 = es.update(i, (es[i].0, v));
    assert forall|a: int, b: int| 0 <= a < b < es2.len() implies opt_string_view(
        (#[trigger] es2[a]).0,
    ) != opt_string_view((#[trigger] es2[b]).0) by {
        assert(es2[a].0 == es[a].0 && es2[b].0 == es[b].0);
    }
    let k = opt_string_view(es[i].0);
    if i == es.len() - 1 {
        assert(es2.drop_last() =~= es.drop_last());
        assert(entries_groups(es2) =~= entries_groups(es).insert(k, mds_view(v@)));
    } else {
        let rest = es.drop_last();
        assert(entries_keys_unique(rest)) by {
            assert forall|a: int, b: int| 0 <= a < b < rest.len() implies opt_string_view(
                (#[trigger] rest[a]).0,
            ) != opt_string_view((#[trigger] rest[b]).0) by {
                assert(rest[a] == es[a] && rest[b] == es[b]);
            }
        }
        lemma_update_groups_one(rest, i, v);
        assert(es2.drop_last() =~= rest.update(i, (rest[i].0, v)));
        let lk = opt_string_view(es.last().0);
        assert(lk != k) by {
            assert(es[i].0 == es[i].0);
            assert(opt_string_view(es[i].0) != opt_string_view(es[es.len() - 1].0));
        }
        assert(es2.last() == es.last());
        assert(entries_groups(es2) =~= entries_groups(es).insert(k, mds_view(v@)));
    }
}

/// The groups of entries whose last entry has a fresh key and no items.
proof fn lemma_push_groups(es: Seq<CacheEntry>)
    requires
        es.len() > 0,
    ensures
        forall|v: Vec<DecodedMd>|
            #![trigger es.update(es.len() - 1, (es.last().0, v))]
            entries_groups(es.update(es.len() - 1, (es.last().0, v))) == entries_groups(
                es,
            ).insert(opt_string_view(es.last().0), mds_view(v@)),
{
    assert forall|v: Vec<DecodedMd>|
        #![trigger es.update(es.len() - 1, (es.last().0, v))]
        entries_groups(es.update(es.len() - 1, (es.last().0, v))) == entries_groups(es).insert(
            opt_string_view(es.last().0),
            mds_view(v@),
        ) by {
        let es2 = es.update(es.len() - 1, (es.last().0, v));
        assert(es2.drop_last() =~= es.drop_last());
        assert(entries_groups(es2) =~= entries_groups(es).insert(
            opt_string_view(es.last().0),
            mds_view(v@),
        ));
    }
}

/// A master key listed in `info.json`, with what its content decodes to as JSON.
pub type ListedKey = (DecodedMasterKey, Result<EncryptedContent, serde_json::Error>);

/// What a listed key loads to.
pub open spec fn load_listed(k: ListedKey) -> Result<MasterKeyView, KeyLoadError> {
    load_key(k.0.encryption_method, k.0.id@, content_view(k.1))
}

/// The first listed key that does not load.
pub open spec fn first_failing_key(ks: Seq<ListedKey>) -> Option<int>
    decreases ks.len(),
{
    if ks.len() == 0 {
        None
    } else {
        match first_failing_key(ks.drop_last()) {
            Some(i) => Some(i),
            None => if load_listed(ks.last()) is Err {
                Some(ks.len() - 1)
            } else {
                None
            },
        }
    }
}

/// The position of the key whose id is `id`.
pub open spec fn key_position(ks: Seq<MasterKeyView>, id: Seq<char>) -> Option<int>
    decreases ks.len(),
{
    if ks.len() == 0 {
        None
    } else if ks.last().id == id {
        Some(ks.len() - 1)
    } else {
        key_position(ks.drop_last(), id)
    }
}

/// `ks` with `k` stored under its id: the key of that id replaced where
/// there is one, else `k` added at the end (`HashMap::insert`).
pub open spec fn insert_key(ks: Seq<MasterKeyView>, k: MasterKeyView) -> Seq<MasterKeyView> {
    match key_position(ks, k.id) {
        Some(i) => ks.update(i, k),
        None => ks.push(k),
    }
}

/// The keys that the listed keys load to, each id once.
pub open spec fn loaded_keys(ks: Seq<ListedKey>) -> Seq<MasterKeyView>
    decreases ks.len(),
{
    if ks.len() == 0 {
        seq![]
    } else {
        match load_listed(ks.last()) {
            Ok(k) => insert_key(loaded_keys(ks.drop_last()), k),
            Err(_) => loaded_keys(ks.drop_last()),
        }
    }
}

/// The notebooks at the top of the folder hierarchy of `mds`.
pub open spec fn root_notebooks(mds: Seq<MdView>) -> Seq<NotebookModel> {
    let g = group_by_parent(mds);
    sub_notebooks(g, children_in(g, None), g.dom().len())
}

/// The master keys as ids and contents.
pub open spec fn keys_view(s: Seq<JoplinMasterKey>) -> Seq<MasterKeyView> {
    s.map_values(|k: JoplinMasterKey| k@)
}

/// No two keys have the same id.
pub open spec fn ids_unique(ks: Seq<MasterKeyView>) -> bool {
    forall|i: int, j: int| 0 <= i < j < ks.len() ==> (#[trigger] ks[i]).id != (#[trigger] ks[j]).id
}

/// A Joplin directory: its master keys and its notebooks.
pub struct JoplinDatabase<P: JoplinPasswordProvider> {
    master_keys: Vec<JoplinMasterKey>,
    notebooks: Vec<JoplinNotebook>,
    password_provider: P,
}

proof fn lemma_key_position(ks: Seq<MasterKeyView>, id: Seq<char>)
    ensures
        key_position(ks, id) matches Some(i) ==> 0 <= i < ks.len() && ks[i].id == id,
        key_position(ks, id) is None ==> forall|j: int| 0 <= j < ks.len() ==> ks[j].id != id,
    decreases ks.len(),
{
    if ks.len() > 0 && ks.last().id != id {
        lemma_key_position(ks.drop_last(), id);
        assert forall|j: int| 0 <= j < ks.len() - 1 implies ks[j] == ks.drop_last()[j] by {}
    }
}

proof fn lemma_key_position_unique(ks: Seq<MasterKeyView>, id: Seq<char>, i: int)
    requires
        ids_unique(ks),
        0 <= i < ks.len(),
        ks[i].id == id,
    ensures
        key_position(ks, id) == Some(i),
    decreases ks.len(),
{
    if i < ks.len() - 1 {
        assert(ks[i].id != ks[ks.len() - 1].id);
        lemma_key_position_unique(ks.drop_last(), id, i);
    }
}

/// Stores `key` under its id.
fn store_key(keys: &mut Vec<JoplinMasterKey>, key: JoplinMasterKey)
    requires
        ids_unique(keys_view(old(keys)@)),
    ensures
        keys_view(final(keys)@) == insert_key(keys_view(old(keys)@), key@),
        ids_unique(keys_view(final(keys)@)),
{
    let ghost before = keys_view(keys@);
    let mut i: usize = 0;
    while i < keys.len()
        invariant
            i <= keys.len(),
            keys@ == old(keys)@,
            before == keys_view(keys@),
            ids_unique(before),
            forall|j: int| 0 <= j < i ==> before[j].id != key@.id,
        decreases keys.len() - i,
    {
        if keys[i].same_id(&key) {
            proof {
                lemma_key_position_unique(before, key@.id, i as int);
            }
            keys.set(i, key);
            assert(keys_view(keys@) =~= before.update(i as int, key@));
            assert forall|a: int, b: int|
                0 <= a < b < keys_view(keys@).len() implies (#[trigger] keys_view(keys@)[a]).id
                != (#[trigger] keys_view(keys@)[b]).id by {
                assert(before[a].id != before[b].id);
            }
            return;
        }
        i += 1;
    }
    proof {
        lemma_key_position(before, key@.id);
        if key_position(before, key@.id) is Some {
            let i = key_position(before, key@.id)->0;
            assert(before[i].id == key@.id);
        }
    }
    keys.push(key);
    assert(keys_view(keys@) =~= before.push(key@));
}

/// `ks` stored one after the other under their ids.
pub open spec fn stored_keys(ks: Seq<MasterKeyView>) -> Seq<MasterKeyView>
    decreases ks.len(),
{
    if ks.len() == 0 {
        seq![]
    } else {
        insert_key(stored_keys(ks.drop_last()), ks.last())
    }
}

/// Storing keys of distinct ids keeps them as they are.
proof fn lemma_stored_unique(ks: Seq<MasterKeyView>)
    requires
        ids_unique(ks),
    ensures
        stored_keys(ks) == ks,
    decreases ks.len(),
{
    if ks.len() > 0 {
        let rest = ks.drop_last();
        assert(ids_unique(rest)) by {
            assert forall|i: int, j: int| 0 <= i < j < rest.len() implies (#[trigger] rest[i]).id
                != (#[trigger] rest[j]).id by {
                assert(rest[i] == ks[i] && rest[j] == ks[j]);
            }
        }
        lemma_stored_unique(rest);
        lemma_key_position(rest, ks.last().id);
        if key_position(rest, ks.last().id) is Some {
            let i = key_position(rest, ks.last().id)->0;
            assert(ks[i].id != ks[ks.len() - 1].id);
        }
        assert(rest.push(ks.last()) =~= ks);
    }
}

/// Loads the master keys that `info.json` lists, each stored under its id.
/// The first key that does not load is the error.
pub fn load_master_keys(keys: Vec<ListedKey>) -> (res: Result<Vec<JoplinMasterKey>, JoplinError>)
    ensures
        match first_failing_key(keys@) {
            Some(i) => res matches Err(err) && key_error_matches(
                err,
                load_listed(keys@[i])->Err_0,
                keys@[i].1,
            ),
            None => res matches Ok(ks) && keys_view(ks@) == loaded_keys(keys@),
        },
{
    let mut master_keys: Vec<JoplinMasterKey> = Vec::new();
    let ghost listed = keys@;
    assert(keys_view(master_keys@) =~= Seq::<MasterKeyView>::empty());
    for entry in it: keys
        invariant
            it.seq() == listed,
            first_failing_key(listed.take(it.index() as int)) is None,
            keys_view(master_keys@) == loaded_keys(listed.take(it.index() as int)),
            ids_unique(keys_view(master_keys@)),
    {
        let ghost i = it.index() as int;
        assert(listed.take(i + 1).drop_last() =~= listed.take(i));
        assert(listed.take(i + 1).last() == entry);
        let (decoded, content) = entry;
        match JoplinMasterKey::from_decoded(&decoded, content) {
            Ok(key) => {
                store_key(&mut master_keys, key);
            },
            Err(err) => {
                assert(load_listed(listed[i]) is Err);
                proof {
                    lemma_first_failing_prefix(listed, i);
                }
                assert(first_failing_key(keys@) == Some(i));
                assert(key_error_matches(err, load_listed(listed[i])->Err_0, listed[i].1));
                return Err(err);
            },
        }
    }
    assert(listed.take(listed.len() as int) =~= listed);
    Ok(master_keys)
}

/// The notebooks at the top of the folder hierarchy of `mds`.
fn build_notebooks(mds: Vec<DecodedMd>) -> (res: Vec<JoplinNotebook>)
    ensures
        notebooks_view(res@) == root_notebooks(mds_view(mds@)),
{
    let mut cache = Cache::new();
    let ghost items = mds_view(mds@);
    assert(group_by_parent(items.take(0)) =~= Groups::empty());
    for d in it: mds
        invariant
            it.seq() == mds@,
            items == mds_view(mds@),
            cache.wf(),
            cache@ == group_by_parent(items.take(it.index() as int)),
    {
        let ghost i = it.index() as int;
        assert(items.take(i + 1).drop_last() =~= items.take(i));
        assert(items.take(i + 1).last() == d@);
        let parent = clone_opt_string(&d.parent_id);
        let ghost dv = d@;
        let group = cache.get_children_mut(&parent);
        let ghost old_group = group@;
        group.push(d);
        assert(mds_view(old_group.push(d)) =~= mds_view(old_group).push(dv));
    }
    assert(items.take(items.len() as int) =~= items);
    let roots = cache.get_children(&None);
    let mut notebooks: Vec<JoplinNotebook> = Vec::new();
    let ghost g = cache@;
    let ghost root_items = children_in(g, None);
    let mut j: usize = 0;
    while j < roots.len()
        invariant
            cache.wf(),
            g == cache@,
            j <= roots.len(),
            mds_view(roots@) == root_items,
            notebooks_view(notebooks@) == sub_notebooks(g, root_items.take(j as int), g.dom().len()),
        decreases roots.len() - j,
    {
        let ghost prefix = root_items.take(j + 1);
        assert(prefix.drop_last() =~= root_items.take(j as int));
        assert(prefix.last() == roots@[j as int]@);
        if let Some(nb) = JoplinNotebook::from_md(&roots[j], &cache) {
            notebooks.push(nb);
            assert(notebooks_view(notebooks@) =~= sub_notebooks(
                g,
                root_items.take(j as int),
                g.dom().len(),
            ).push(nb@));
        }
        j += 1;
    }
    assert(root_items.take(roots.len() as int) =~= root_items);
    notebooks
}

impl<P: JoplinPasswordProvider> JoplinDatabase<P> {
    /// The master keys, each id once.
    pub closed spec fn master_keys_view(&self) -> Seq<MasterKeyView> {
        keys_view(self.master_keys@)
    }

    /// The notebooks at the top of the hierarchy.
    pub closed spec fn notebooks_model(&self) -> Seq<NotebookModel> {
        notebooks_view(self.notebooks@)
    }

    /// The source of passwords for the master keys.
    pub closed spec fn provider(&self) -> P {
        self.password_provider
    }

    /// The directory made of its decoded items, in the order in which they
    /// were read, and of master keys already loaded, each stored under its
    /// id (a later key replaces an earlier one of the same id).
    pub fn from_parts(mds: Vec<DecodedMd>, keys: Vec<JoplinMasterKey>, password_provider: P) -> (res:
        JoplinDatabase<P>)
        ensures
            res.master_keys_view() == stored_keys(keys_view(keys@)),
            res.notebooks_model() == root_notebooks(mds_view(mds@)),
            res.provider() == password_provider,
    {
        let mut master_keys: Vec<JoplinMasterKey> = Vec::new();
        let ghost given = keys_view(keys@);
        assert(keys_view(master_keys@) =~= Seq::<MasterKeyView>::empty());
        for key in it: keys
            invariant
                given == keys_view(it.seq()),
                keys_view(master_keys@) == stored_keys(given.take(it.index() as int)),
                ids_unique(keys_view(master_keys@)),
        {
            let ghost i = it.index() as int;
            assert(given.take(i + 1).drop_last() =~= given.take(i));
            assert(given.take(i + 1).last() == key@);
            store_key(&mut master_keys, key);
        }
        assert(given.take(given.len() as int) =~= given);
        let notebooks = build_notebooks(mds);
        JoplinDatabase { master_keys, notebooks, password_provider }
    }

    /// The directory made of its decoded items, in the order in which they
    /// were read, and of the master keys that `info.json` lists. The first
    /// master key that does not load is the error.
    pub fn from_decoded(
        mds: Vec<DecodedMd>,
        keys: Vec<ListedKey>,
        password_provider: P,
    ) -> (res: Result<JoplinDatabase<P>, JoplinError>)
        ensures
            match first_failing_key(keys@) {
                Some(i) => res matches Err(err) && key_error_matches(
                    err,
                    load_listed(keys@[i])->Err_0,
                    keys@[i].1,
                ),
                None => res matches Ok(db) && db.master_keys_view() == loaded_keys(keys@)
                    && db.notebooks_model() == root_notebooks(mds_view(mds@)) && db.provider()
                    == password_provider,
            },
    {
        let ghost listed = keys@;
        let loaded = match load_master_keys(keys) {
            Ok(loaded) => loaded,
            Err(err) => {
                return Err(err);
            },
        };
        proof {
            lemma_loaded_keys_distinct(listed);
            lemma_stored_unique(keys_view(loaded@));
        }
        Ok(Self::from_parts(mds, loaded, password_provider))
    }

    /// The listing of the directory: each notebook at the top of the
    /// hierarchy two spaces in, with its contents below it.
    pub fn outline(&self) -> (res: Vec<String>)
        ensures
            strings_view(res@) == notebooks_outline(self.notebooks_model(), seq![' ', ' ']),
    {
        let mut out: Vec<String> = Vec::new();
        let mut prefix = String::new();
        push_char(&mut prefix, ' ');
        push_char(&mut prefix, ' ');
        assert(prefix@ =~= seq![' ', ' ']);
        let nbs = &self.notebooks;
        let ghost model = self.notebooks_model();
        assert(strings_view(out@) =~= Seq::<Seq<char>>::empty());
        let mut i: usize = 0;
        while i < nbs.len()
            invariant
                i <= nbs.len(),
                model == notebooks_view(nbs@),
                prefix@ == seq![' ', ' '],
                strings_view(out@) == notebooks_outline(model.take(i as int), prefix@),
            decreases nbs.len() - i,
        {
            let ghost taken = model.take(i + 1);
            assert(taken.subrange(0, i as int) =~= model.take(i as int));
            assert(taken[i as int] == nbs@[i as int]@);
            push_notebook_outline(&nbs[i], prefix.as_str(), &mut out);
            i += 1;
        }
        assert(model.take(nbs.len() as int) =~= model);
        out
    }

    /// The notebooks at the top of the folder hierarchy.
    pub fn get_notebooks(&self) -> (res: &Vec<JoplinNotebook>)
        ensures
            notebooks_view(res@) == self.notebooks_model(),
    {
        &self.notebooks
    }
}

/// The loaded master keys have distinct ids.
pub proof fn lemma_loaded_keys_distinct(ks: Seq<ListedKey>)
    ensures
        ids_unique(loaded_keys(ks)),
    decreases ks.len(),
{
    if ks.len() > 0 {
        lemma_loaded_keys_distinct(ks.drop_last());
        if let Ok(k) = load_listed(ks.last()) {
            let before = loaded_keys(ks.drop_last());
            lemma_key_position(before, k.id);
            let after = insert_key(before, k);
            assert forall|i: int, j: int| 0 <= i < j < after.len() implies (#[trigger] after[i]).id
                != (#[trigger] after[j]).id by {
                if j < before.len() {
                    assert(before[i].id != before[j].id);
                }
            }
        }
    }
}

proof fn lemma_first_failing_prefix(ks: Seq<ListedKey>, i: int)
    requires
        0 <= i < ks.len(),
        first_failing_key(ks.take(i)) is None,
        load_listed(ks[i]) is Err,
    ensures
        first_failing_key(ks) == Some(i),
    decreases ks.len(),
{
    if i < ks.len() - 1 {
        assert(ks.drop_last().take(i) =~= ks.take(i));
        assert(ks.drop_last()[i] == ks[i]);
        lemma_first_failing_prefix(ks.drop_last(), i);
    } else {
        assert(ks.drop_last() =~= ks.take(i));
    }
}

} // verus!

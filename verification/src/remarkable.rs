use vstd::prelude::*;
use vstd::string::StrSliceExecFns;

use crate::text::{
    chars_of, lemma_rfind_char, lemma_rfind_char_is, push_str, rfind_char, rfind_char_exec, str_eq,
};

verus! {

/// A file or directory entry as `rmapi -json ls` lists it.
#[derive(Debug, Clone)]
pub struct RmEntry {
    /// Unique ID (UUID)
    pub id: String,
    /// Display name
    pub name: String,
    /// "CollectionType" for dirs, "DocumentType" for files
    pub entry_type: String,
    /// Version number
    pub version: i64,
    /// Last modified timestamp (RFC3339)
    pub modified_client: String,
    /// Current page index
    pub current_page: i64,
    /// Parent UUID
    pub parent: String,
}

impl RmEntry {
    /// The entry is a folder.
    pub open spec fn is_directory_spec(&self) -> bool {
        self.entry_type@ == "CollectionType"@
    }

    /// The entry is a document.
    pub open spec fn is_document_spec(&self) -> bool {
        self.entry_type@ == "DocumentType"@
    }

    pub fn is_directory(&self) -> (b: bool)
        ensures
            b == self.is_directory_spec(),
    {
        str_eq(self.entry_type.as_str(), "CollectionType")
    }

    pub fn is_document(&self) -> (b: bool)
        ensures
            b == self.is_document_spec(),
    {
        str_eq(self.entry_type.as_str(), "DocumentType")
    }
}

// ---------------------------------------------------------------------------
// Paths on the tablet
// ---------------------------------------------------------------------------

/// The last component of a path on the tablet: what follows its last `/`,
/// or the whole path when it has none.
pub open spec fn basename_spec(path: Seq<char>) -> Seq<char> {
    match rfind_char(path, '/') {
        Some(k) => path.skip(k + 1 as int),
        None => path,
    }
}

/// The last component of a path on the tablet (the document's name).
pub fn remote_basename(rm_path: &str) -> (r: &str)
    ensures
        r@ == basename_spec(rm_path@),
{
    let v = chars_of(rm_path);
    proof {
        lemma_rfind_char(v@, '/');
    }
    match rfind_char_exec(&v, '/') {
        Some(k) => {
            let r = rm_path.substring_char(k + 1, v.len());
            assert(r@ =~= v@.skip(k + 1));
            r
        },
        None => rm_path,
    }
}

/// The folder whose existence must be ensured before `path` is created:
/// what precedes the last `/`, unless that is empty or there is none.
pub open spec fn parent_spec(path: Seq<char>) -> Option<Seq<char>> {
    match rfind_char(path, '/') {
        Some(k) => if k > 0 {
            Some(path.take(k as int))
        } else {
            None
        },
        None => None,
    }
}

/// The parent folder of a path on the tablet, if it has a non-empty one.
pub fn remote_parent(rm_path: &str) -> (r: Option<&str>)
    ensures
        match r {
            Some(p) => parent_spec(rm_path@) == Some(p@),
            None => parent_spec(rm_path@) is None,
        },
{
    let v = chars_of(rm_path);
    proof {
        lemma_rfind_char(v@, '/');
    }
    match rfind_char_exec(&v, '/') {
        Some(k) => {
            if k > 0 {
                let r = rm_path.substring_char(0, k);
                assert(r@ =~= v@.take(k as int));
                Some(r)
            } else {
                None
            }
        },
        None => None,
    }
}

/// The path of an entry named `name` inside the folder `dir`.
pub open spec fn child_path_spec(dir: Seq<char>, name: Seq<char>) -> Seq<char> {
    if dir == "/"@ {
        "/"@ + name
    } else {
        dir + "/"@ + name
    }
}

/// The path of an entry named `name` inside the folder `dir`.
pub fn child_path(dir: &str, name: &str) -> (r: String)
    ensures
        r@ == child_path_spec(dir@, name@),
{
    let mut r = String::new();
    if str_eq(dir, "/") {
        push_str(&mut r, "/");
    } else {
        push_str(&mut r, dir);
        push_str(&mut r, "/");
    }
    push_str(&mut r, name);
    r
}

/// What ensuring that a folder exists does next, once it is known whether
/// listing the folder succeeded.
#[derive(Debug, Clone, PartialEq, Eq)]
pub enum EnsureAction {
    /// The folder exists.
    Done,
    /// Ensure the parent folder first, then create the folder.
    EnsureParentThenMkdir(String),
    /// Create the folder (it has no parent to ensure).
    Mkdir,
}

/// The step of ensuring that the folder `rm_path` exists, given whether
/// listing it succeeded.
pub fn ensure_dir_step(rm_path: &str, listed: bool) -> (a: EnsureAction)
    ensures
        listed ==> a == EnsureAction::Done,
        !listed ==> match parent_spec(rm_path@) {
            Some(p) => a matches EnsureAction::EnsureParentThenMkdir(q) && q@ == p,
            None => a == EnsureAction::Mkdir,
        },
{
    if listed {
        return EnsureAction::Done;
    }
    match remote_parent(rm_path) {
        Some(p) => {
            let mut q = String::new();
            push_str(&mut q, p);
            EnsureAction::EnsureParentThenMkdir(q)
        },
        None => EnsureAction::Mkdir,
    }
}

/// The last `/` of `a + "/" + b` is the one between them when `b` has none.
pub proof fn lemma_rfind_joined(a: Seq<char>, b: Seq<char>)
    requires
        forall|i: int| 0 <= i < b.len() ==> b[i] != '/',
    ensures
        rfind_char(a + "/"@ + b, '/') == Some(a.len()),
{
    reveal_strlit("/");
    let s = a + "/"@ + b;
    assert(s[a.len() as int] == '/');
    assert forall|j: int| a.len() < j < s.len() implies s[j] != '/' by {
        assert(s[j] == b[j - a.len() - 1]);
    }
    lemma_rfind_char_is(s, '/', a.len() as int);
}

/// The name of an entry is recovered from its path: the basename of the
/// path of `name` inside any folder is `name` (for a name without `/`).
pub proof fn lemma_basename_of_child(dir: Seq<char>, name: Seq<char>)
    requires
        forall|i: int| 0 <= i < name.len() ==> name[i] != '/',
    ensures
        basename_spec(child_path_spec(dir, name)) == name,
{
    reveal_strlit("/");
    if dir == "/"@ {
        assert(child_path_spec(dir, name) =~= seq![] + "/"@ + name);
        lemma_rfind_joined(seq![], name);
        assert(child_path_spec(dir, name).skip(1) =~= name);
    } else {
        lemma_rfind_joined(dir, name);
        assert((dir + "/"@ + name).skip(dir.len() + 1int) =~= name);
    }
}

/// The folder of an entry is recovered from its path: the parent of the
/// path of `name` inside a folder other than the root is that folder.
pub proof fn lemma_parent_of_child(dir: Seq<char>, name: Seq<char>)
    requires
        dir.len() > 0,
        dir != "/"@,
        forall|i: int| 0 <= i < name.len() ==> name[i] != '/',
    ensures
        parent_spec(child_path_spec(dir, name)) == Some(dir),
{
    reveal_strlit("/");
    lemma_rfind_joined(dir, name);
    assert((dir + "/"@ + name).take(dir.len() as int) =~= dir);
}

/// A parent path is strictly shorter than the path, so creating the
/// missing folders of a path, parent first, comes to an end.
pub proof fn lemma_parent_shorter(path: Seq<char>)
    ensures
        parent_spec(path) matches Some(p) ==> p.len() < path.len(),
{
    lemma_rfind_char(path, '/');
}

// ---------------------------------------------------------------------------
// Recursive listing
// ---------------------------------------------------------------------------

/// The paths of the folders among `entries` of the folder `dir`, in order.
pub open spec fn sub_dirs(dir: Seq<char>, entries: Seq<RmEntry>) -> Seq<Seq<char>>
    decreases entries.len(),
{
    if entries.len() == 0 {
        seq![]
    } else if entries.last().is_directory_spec() {
        sub_dirs(dir, entries.drop_last()).push(child_path_spec(dir, entries.last().name@))
    } else {
        sub_dirs(dir, entries.drop_last())
    }
}

/// The documents (everything but folders) among `entries` of the folder
/// `dir`, with their paths, in order.
pub open spec fn documents(dir: Seq<char>, entries: Seq<RmEntry>) -> Seq<(Seq<char>, RmEntry)>
    decreases entries.len(),
{
    if entries.len() == 0 {
        seq![]
    } else if entries.last().is_directory_spec() {
        documents(dir, entries.drop_last())
    } else {
        documents(dir, entries.drop_last()).push(
            (child_path_spec(dir, entries.last().name@), entries.last()),
        )
    }
}

/// A listing sorts every entry of a folder one way: each is either a
/// folder to list next or a document found, never both and never neither;
/// what is found is never a folder, and is named by its path in `dir`.
pub proof fn lemma_listing_partitions(dir: Seq<char>, entries: Seq<RmEntry>)
    ensures
        sub_dirs(dir, entries).len() + documents(dir, entries).len() == entries.len(),
        forall|i: int|
            0 <= i < documents(dir, entries).len() ==> !(#[trigger] documents(
                dir,
                entries,
            )[i]).1.is_directory_spec() && documents(dir, entries)[i].0 == child_path_spec(
                dir,
                documents(dir, entries)[i].1.name@,
            ),
    decreases entries.len(),
{
    if entries.len() > 0 {
        lemma_listing_partitions(dir, entries.drop_last());
    }
}

/// Each document entry of a folder is among its documents, with its path.
pub proof fn lemma_documents_complete(dir: Seq<char>, entries: Seq<RmEntry>, j: int)
    requires
        0 <= j < entries.len(),
        !entries[j].is_directory_spec(),
    ensures
        documents(dir, entries).contains((child_path_spec(dir, entries[j].name@), entries[j])),
    decreases entries.len(),
{
    let d = documents(dir, entries);
    if j == entries.len() - 1 {
        assert(d[d.len() - 1] == (child_path_spec(dir, entries[j].name@), entries[j]));
    } else {
        let prev = documents(dir, entries.drop_last());
        lemma_documents_complete(dir, entries.drop_last(), j);
        let k = choose|k: int|
            0 <= k < prev.len() && prev[k] == (child_path_spec(dir, entries[j].name@), entries[j]);
        assert(d[k] == prev[k]);
    }
}

/// The sub-folders of the folders `vs` (in order), each folder listed as the
/// tablet `tree` gives it.
pub open spec fn listed_children(vs: Seq<Seq<char>>, tree: Map<Seq<char>, Seq<RmEntry>>) -> Seq<
    Seq<char>,
>
    decreases vs.len(),
{
    if vs.len() == 0 {
        seq![]
    } else {
        listed_children(vs.drop_last(), tree) + sub_dirs(vs.last(), tree[vs.last()])
    }
}

/// The documents of the folders `vs` (in order), with their paths.
pub open spec fn listed_documents(vs: Seq<Seq<char>>, tree: Map<Seq<char>, Seq<RmEntry>>) -> Seq<
    (Seq<char>, RmEntry),
>
    decreases vs.len(),
{
    if vs.len() == 0 {
        seq![]
    } else {
        listed_documents(vs.drop_last(), tree) + documents(vs.last(), tree[vs.last()])
    }
}

/// A listing from `root` of the tablet `tree` that has listed the folders
/// `vs` so far: the pending folders and those listed are the root and the
/// sub-folders found, each as often as it was found, and what was found are
/// the documents of the listed folders, in order.
pub open spec fn walk_accounts(
    root: Seq<char>,
    tree: Map<Seq<char>, Seq<RmEntry>>,
    vs: Seq<Seq<char>>,
    pending: Seq<Seq<char>>,
    found: Seq<(Seq<char>, RmEntry)>,
) -> bool {
    &&& pending.to_multiset().add(vs.to_multiset()) == (seq![root] + listed_children(
        vs,
        tree,
    )).to_multiset()
    &&& found == listed_documents(vs, tree)
}

/// A new listing accounts for nothing listed yet.
pub proof fn lemma_walk_start(root: Seq<char>, tree: Map<Seq<char>, Seq<RmEntry>>)
    ensures
        walk_accounts(root, tree, seq![], seq![root], seq![]),
{
    broadcast use vstd::multiset::group_multiset_axioms;
    broadcast use vstd::seq_lib::group_to_multiset_ensures;

    assert(seq![root] + listed_children(seq![], tree) =~= seq![root]);
    assert(Seq::<Seq<char>>::empty().to_multiset() =~= vstd::multiset::Multiset::empty());
    assert(seq![root].to_multiset().add(vstd::multiset::Multiset::empty()) =~= seq![
        root,
    ].to_multiset());
}

/// Taking the next pending folder off the listing (`next_dir`) and recording
/// its entries as the tablet gives them (`visit`) keeps the account.
pub proof fn lemma_walk_step(
    root: Seq<char>,
    tree: Map<Seq<char>, Seq<RmEntry>>,
    vs: Seq<Seq<char>>,
    pending: Seq<Seq<char>>,
    found: Seq<(Seq<char>, RmEntry)>,
)
    requires
        walk_accounts(root, tree, vs, pending, found),
        pending.len() > 0,
    ensures
        walk_accounts(
            root,
            tree,
            vs.push(pending.last()),
            pending.drop_last() + sub_dirs(pending.last(), tree[pending.last()]),
            found + documents(pending.last(), tree[pending.last()]),
        ),
{
    broadcast use vstd::multiset::group_multiset_axioms;
    broadcast use vstd::seq_lib::group_to_multiset_ensures;

    let d = pending.last();
    let pd = pending.drop_last();
    let sub = sub_dirs(d, tree[d]);
    let vs2 = vs.push(d);
    assert(vs2.drop_last() =~= vs);
    assert(pending =~= pd.push(d));
    vstd::seq_lib::to_multiset_build(pd, d);
    vstd::seq_lib::to_multiset_build(vs, d);
    vstd::seq_lib::lemma_multiset_commutative(pd, sub);
    let all = seq![root] + listed_children(vs, tree);
    assert(seq![root] + listed_children(vs2, tree) =~= all + sub);
    vstd::seq_lib::lemma_multiset_commutative(all, sub);
    assert((pd + sub).to_multiset().add(vs2.to_multiset()) =~= pending.to_multiset().add(
        vs.to_multiset(),
    ).add(sub.to_multiset()));
    assert(listed_documents(vs2, tree) == listed_documents(vs, tree) + documents(d, tree[d]));
}

/// A finished listing (nothing pending) has listed every sub-folder found
/// in a listed folder, and has found every document entry of every listed
/// folder, with its path in that folder, each once in listing order.
pub proof fn lemma_walk_finished(
    root: Seq<char>,
    tree: Map<Seq<char>, Seq<RmEntry>>,
    vs: Seq<Seq<char>>,
    found: Seq<(Seq<char>, RmEntry)>,
)
    requires
        walk_accounts(root, tree, vs, seq![], found),
    ensures
        forall|c: Seq<char>| #[trigger] listed_children(vs, tree).contains(c) ==> vs.contains(c),
        forall|i: int, j: int|
            0 <= i < vs.len() && 0 <= j < tree[vs[i]].len() && !tree[vs[i]][j].is_directory_spec()
                ==> #[trigger] found.contains(
                (child_path_spec(vs[i], (#[trigger] tree[vs[i]][j]).name@), tree[vs[i]][j]),
            ),
        found == listed_documents(vs, tree),
{
    broadcast use vstd::multiset::group_multiset_axioms;
    broadcast use vstd::seq_lib::group_to_multiset_ensures;

    let all = seq![root] + listed_children(vs, tree);
    assert(Seq::<Seq<char>>::empty().to_multiset() =~= vstd::multiset::Multiset::empty());
    assert(vs.to_multiset() =~= all.to_multiset());
    assert forall|c: Seq<char>| #[trigger] listed_children(vs, tree).contains(c) implies vs.contains(
        c,
    ) by {
        let k = choose|k: int| 0 <= k < listed_children(vs, tree).len() && listed_children(vs, tree)[k] == c;
        assert(all[k + 1] == c);
        assert(all.contains(c));
        vstd::seq_lib::to_multiset_contains(all, c);
        vstd::seq_lib::to_multiset_contains(vs, c);
    }
    assert forall|i: int, j: int|
        0 <= i < vs.len() && 0 <= j < tree[vs[i]].len() && !tree[vs[i]][j].is_directory_spec()
            implies #[trigger] found.contains(
        (child_path_spec(vs[i], (#[trigger] tree[vs[i]][j]).name@), tree[vs[i]][j]),
    ) by {
        lemma_documents_complete(vs[i], tree[vs[i]], j);
        lemma_listed_documents_include(vs, tree, i);
    }
}

proof fn lemma_listed_documents_include(vs: Seq<Seq<char>>, tree: Map<Seq<char>, Seq<RmEntry>>, i: int)
    requires
        0 <= i < vs.len(),
    ensures
        forall|x: (Seq<char>, RmEntry)|
            #[trigger] documents(vs[i], tree[vs[i]]).contains(x) ==> listed_documents(
                vs,
                tree,
            ).contains(x),
    decreases vs.len(),
{
    let prev = listed_documents(vs.drop_last(), tree);
    let last = documents(vs.last(), tree[vs.last()]);
    let all = listed_documents(vs, tree);
    assert(all == prev + last);
    if i < vs.len() - 1 {
        lemma_listed_documents_include(vs.drop_last(), tree, i);
        assert(vs.drop_last()[i] == vs[i]);
        assert forall|x: (Seq<char>, RmEntry)| #[trigger] documents(vs[i], tree[vs[i]]).contains(x) implies all.contains(x) by {
            assert(prev.contains(x));
            let k = choose|k: int| 0 <= k < prev.len() && prev[k] == x;
            assert(all[k] == x);
        }
    } else {
        assert forall|x: (Seq<char>, RmEntry)| #[trigger] documents(vs[i], tree[vs[i]]).contains(x) implies all.contains(x) by {
            let k = choose|k: int| 0 <= k < last.len() && last[k] == x;
            assert(all[prev.len() + k] == x);
        }
    }
}

/// The state of a recursive listing: the folders still to list (the last
/// one next) and the documents found so far.
pub struct RemoteWalk {
    pub pending: Vec<String>,
    pub found: Vec<(String, RmEntry)>,
}

impl RemoteWalk {
    pub open spec fn pending_view(&self) -> Seq<Seq<char>> {
        self.pending@.map_values(|s: String| s@)
    }

    pub open spec fn found_view(&self) -> Seq<(Seq<char>, RmEntry)> {
        self.found@.map_values(|p: (String, RmEntry)| (p.0@, p.1))
    }

    /// A listing of everything under `root`.
    pub fn new(root: &str) -> (w: Self)
        ensures
            w.pending_view() == seq![root@],
            w.found_view() == Seq::<(Seq<char>, RmEntry)>::empty(),
    {
        let mut start = String::new();
        push_str(&mut start, root);
        let mut pending: Vec<String> = Vec::new();
        pending.push(start);
        let w = RemoteWalk { pending, found: Vec::new() };
        assert(w.pending_view() =~= seq![root@]);
        assert(w.found_view() =~= Seq::<(Seq<char>, RmEntry)>::empty());
        w
    }

    /// The next folder to list, taken off the pending ones.
    pub fn next_dir(&mut self) -> (r: Option<String>)
        ensures
            final(self).found_view() == old(self).found_view(),
            old(self).pending_view().len() == 0 ==> (r is None && final(self).pending_view()
                == old(self).pending_view()),
            old(self).pending_view().len() > 0 ==> (r is Some && r->0@ == old(
                self,
            ).pending_view().last() && final(self).pending_view() == old(
                self,
            ).pending_view().drop_last()),
    {
        let ghost before = self.pending_view();
        let r = self.pending.pop();
        proof {
            if before.len() > 0 {
                assert(self.pending_view() =~= before.drop_last());
            }
        }
        r
    }

    /// Records the entries of the folder `dir`: its sub-folders become pending
    /// (in order, so the last is listed next) and its documents are found.
    pub fn visit(&mut self, dir: &str, entries: Vec<RmEntry>)
        ensures
            final(self).pending_view() == old(self).pending_view() + sub_dirs(dir@, entries@),
            final(self).found_view() == old(self).found_view() + documents(dir@, entries@),
    {
        let ghost p0 = self.pending_view();
        let ghost f0 = self.found_view();
        let ghost all = entries@;
        assert(all.take(0) =~= Seq::<RmEntry>::empty());
        for entry in it: entries
            invariant
                it.seq() == all,
                self.pending_view() == p0 + sub_dirs(dir@, all.take(it.index() as int)),
                self.found_view() == f0 + documents(dir@, all.take(it.index() as int)),
        {
            let ghost i = it.index();
            assert(entry == all[i as int]);
            assert(all.take(i + 1).drop_last() =~= all.take(i as int));
            let path = child_path(dir, entry.name.as_str());
            if entry.is_directory() {
                let ghost pv = self.pending_view();
                self.pending.push(path);
                assert(self.pending_view() =~= pv.push(path@));
            } else {
                let ghost fv = self.found_view();
                self.found.push((path, entry));
                assert(self.found_view() =~= fv.push((path@, entry)));
            }
        }
        assert(all.take(all.len() as int) =~= all);
    }
}

} // verus!

use vstd::prelude::*;

use crate::text::{chars_of, str_eq};

verus! {

/// Metadata from the `.content` file inside an rmdoc archive.
pub struct ContentMetadata {
    /// List of page UUIDs in order
    pub pages: Vec<String>,
    /// Number of pages
    pub page_count: i64,
    /// File type: "notebook", "pdf", "epub"
    pub file_type: String,
}

/// Result of extracting an rmdoc archive. Paths are held as text.
pub struct ExtractedRmdoc {
    /// The document UUID
    pub doc_id: String,
    /// Content metadata
    pub metadata: ContentMetadata,
    /// Paths to .rm files in page order (only for pages that have .rm files)
    pub rm_files: Vec<String>,
    /// Page UUID and .rm file path of each page that has annotations
    pub rm_files_by_page: Vec<(String, String)>,
    /// Path to the embedded PDF, if this is a PDF-type document
    pub pdf_path: Option<String>,
    /// Root extraction directory
    pub extract_dir: String,
}

/// The stroke files among `files` (one per page, `None` where a page has
/// none), in page order.
pub open spec fn present_files(files: Seq<Option<Seq<char>>>) -> Seq<Seq<char>>
    decreases files.len(),
{
    if files.len() == 0 {
        seq![]
    } else {
        match files.last() {
            Some(f) => present_files(files.drop_last()).push(f),
            None => present_files(files.drop_last()),
        }
    }
}

// ---------------------------------------------------------------------------
// Stroke files by page: pairs with unique keys
// ---------------------------------------------------------------------------

/// Where the key `k` first stands among the pairs `s`.
pub open spec fn key_index(s: Seq<(Seq<char>, Seq<char>)>, k: Seq<char>) -> Option<nat>
    decreases s.len(),
{
    if s.len() == 0 {
        None
    } else if s[0].0 == k {
        Some(0)
    } else {
        match key_index(s.drop_first(), k) {
            Some(j) => Some(j + 1),
            None => None,
        }
    }
}

/// No key stands twice among the pairs `s`.
pub open spec fn keys_unique(s: Seq<(Seq<char>, Seq<char>)>) -> bool {
    forall|i: int, j: int| 0 <= i < j < s.len() ==> (#[trigger] s[i]).0 != (#[trigger] s[j]).0
}

/// The pairs `s` with the value of the key `k` set to `v`: the pair of `k`
/// is replaced where there is one, else the pair is added at the end (what
/// inserting into a map does).
pub open spec fn put(s: Seq<(Seq<char>, Seq<char>)>, k: Seq<char>, v: Seq<char>) -> Seq<
    (Seq<char>, Seq<char>),
> {
    match key_index(s, k) {
        Some(j) => s.update(j as int, (k, v)),
        None => s.push((k, v)),
    }
}

pub proof fn lemma_key_index(s: Seq<(Seq<char>, Seq<char>)>, k: Seq<char>)
    ensures
        key_index(s, k) matches Some(j) ==> j < s.len() && s[j as int].0 == k && forall|i: int|
            0 <= i < j ==> (#[trigger] s[i]).0 != k,
        key_index(s, k) is None ==> forall|i: int| 0 <= i < s.len() ==> (#[trigger] s[i]).0 != k,
    decreases s.len(),
{
    if s.len() > 0 && s[0].0 != k {
        lemma_key_index(s.drop_first(), k);
        assert forall|i: int| 1 <= i < s.len() implies s[i] == s.drop_first()[i - 1] by {}
    }
}

proof fn lemma_key_index_is(s: Seq<(Seq<char>, Seq<char>)>, k: Seq<char>, j: int)
    requires
        0 <= j < s.len(),
        s[j].0 == k,
        forall|i: int| 0 <= i < j ==> (#[trigger] s[i]).0 != k,
    ensures
        key_index(s, k) == Some(j as nat),
    decreases s.len(),
{
    if j > 0 {
        assert forall|i: int| 0 <= i < j - 1 implies (#[trigger] s.drop_first()[i]).0 != k by {
            assert(s.drop_first()[i] == s[i + 1]);
        }
        lemma_key_index_is(s.drop_first(), k, j - 1);
    }
}

/// Setting a value keeps the keys unique.
pub proof fn lemma_put_unique(s: Seq<(Seq<char>, Seq<char>)>, k: Seq<char>, v: Seq<char>)
    requires
        keys_unique(s),
    ensures
        keys_unique(put(s, k, v)),
{
    lemma_key_index(s, k);
    let t = put(s, k, v);
    match key_index(s, k) {
        Some(j) => {
            assert forall|a: int, b: int| 0 <= a < b < t.len() implies (#[trigger] t[a]).0 != (
            #[trigger] t[b]).0 by {
                assert(t[a].0 == s[a].0);
                assert(t[b].0 == s[b].0);
            }
        },
        None => {
            assert forall|a: int, b: int| 0 <= a < b < t.len() implies (#[trigger] t[a]).0 != (
            #[trigger] t[b]).0 by {
                assert(t[a] == s[a]);
                if b < s.len() {
                    assert(t[b] == s[b]);
                }
            }
        },
    }
}

/// The pages among `pages` that have a stroke file in `files`, each with
/// that file, as a map from page to file (a later page of the same UUID
/// replaces the file of an earlier one).
pub open spec fn files_by_page(pages: Seq<Seq<char>>, files: Seq<Option<Seq<char>>>) -> Seq<
    (Seq<char>, Seq<char>),
>
    decreases files.len(),
{
    if files.len() == 0 {
        seq![]
    } else {
        match files.last() {
            Some(f) => put(files_by_page(pages.drop_last(), files.drop_last()), pages.last(), f),
            None => files_by_page(pages.drop_last(), files.drop_last()),
        }
    }
}

/// No page stands twice among the stroke files by page.
pub proof fn lemma_files_by_page_unique(pages: Seq<Seq<char>>, files: Seq<Option<Seq<char>>>)
    ensures
        keys_unique(files_by_page(pages, files)),
    decreases files.len(),
{
    if files.len() > 0 {
        lemma_files_by_page_unique(pages.drop_last(), files.drop_last());
        if let Some(f) = files.last() {
            lemma_put_unique(files_by_page(pages.drop_last(), files.drop_last()), pages.last(), f);
        }
    }
}

/// When the page UUIDs are distinct, the stroke files by page are the
/// stroke files in page order, each with its page; a page with a stroke
/// file is listed among them, and every page listed there is a page of the
/// document.
pub proof fn lemma_files_by_page_agree(pages: Seq<Seq<char>>, files: Seq<Option<Seq<char>>>)
    requires
        pages.len() == files.len(),
        pages.no_duplicates(),
    ensures
        files_by_page(pages, files).map_values(|p: (Seq<char>, Seq<char>)| p.1) == present_files(
            files,
        ),
        forall|i: int|
            0 <= i < files.len() && (#[trigger] files[i]) is Some ==> exists|j: int|
                0 <= j < files_by_page(pages, files).len() && #[trigger] files_by_page(
                    pages,
                    files,
                )[j] == (pages[i], files[i]->0),
        forall|j: int|
            0 <= j < files_by_page(pages, files).len() ==> pages.contains(
                (#[trigger] files_by_page(pages, files)[j]).0,
            ),
    decreases files.len(),
{
    if files.len() > 0 {
        let ps = pages.drop_last();
        let fs = files.drop_last();
        assert(ps.no_duplicates()) by {
            assert forall|a: int, b: int| 0 <= a < ps.len() && 0 <= b < ps.len() && a != b implies ps[a]
                != ps[b] by {
                assert(ps[a] == pages[a] && ps[b] == pages[b]);
            }
        }
        lemma_files_by_page_agree(ps, fs);
        let prev = files_by_page(ps, fs);
        let cur = files_by_page(pages, files);
        let last = pages.last();
        assert forall|j: int| 0 <= j < prev.len() implies (#[trigger] prev[j]).0 != last by {
            assert(ps.contains(prev[j].0));
            let k = choose|k: int| 0 <= k < ps.len() && ps[k] == prev[j].0;
            assert(pages[k] == ps[k]);
        }
        lemma_key_index(prev, last);
        if let Some(f) = files.last() {
            assert(key_index(prev, last) is None);
            assert(cur == prev.push((last, f)));
        }
        assert forall|i: int| 0 <= i < files.len() && (#[trigger] files[i]) is Some implies exists|j: int|
            0 <= j < cur.len() && #[trigger] cur[j] == (pages[i], files[i]->0) by {
            if i < files.len() - 1 {
                assert(fs[i] == files[i]);
                assert(ps[i] == pages[i]);
                let j = choose|j: int| 0 <= j < prev.len() && #[trigger] prev[j] == (ps[i], fs[i]->0);
                assert(cur[j] == prev[j]);
            } else {
                assert(cur[prev.len() as int] == (pages[i], files[i]->0));
            }
        }
        assert forall|j: int| 0 <= j < cur.len() implies pages.contains((#[trigger] cur[j]).0) by {
            if j < prev.len() {
                assert(cur[j] == prev[j]);
                let k = choose|k: int| 0 <= k < ps.len() && ps[k] == prev[j].0;
                assert(pages[k] == ps[k]);
            } else {
                assert(pages[pages.len() - 1] == cur[j].0);
            }
        }
        match files.last() {
            Some(f) => {
                assert(cur.map_values(|p: (Seq<char>, Seq<char>)| p.1) =~= prev.map_values(
                    |p: (Seq<char>, Seq<char>)| p.1,
                ).push(f));
            },
            None => {},
        }
    }
}

pub open spec fn pairs_view(v: Seq<(String, String)>) -> Seq<(Seq<char>, Seq<char>)> {
    v.map_values(|p: (String, String)| (p.0@, p.1@))
}

/// Set the value of the key `k` among the pairs `v` to `val`.
fn put_exec(v: &mut Vec<(String, String)>, k: String, val: String)
    ensures
        pairs_view(final(v)@) == put(pairs_view(old(v)@), k@, val@),
{
    let ghost s = pairs_view(v@);
    let ghost kv = k@;
    let ghost vv = val@;
    let mut j: usize = 0;
    while j < v.len()
        invariant
            j <= v.len(),
            s == pairs_view(v@),
            s == pairs_view(old(v)@),
            kv == k@,
            vv == val@,
            forall|i: int| 0 <= i < j ==> (#[trigger] s[i]).0 != k@,
        decreases v.len() - j,
    {
        if str_eq(v[j].0.as_str(), k.as_str()) {
            proof {
                lemma_key_index_is(s, k@, j as int);
            }
            v[j] = (k, val);
            assert(pairs_view(v@) =~= s.update(j as int, (kv, vv)));
            assert(key_index(s, kv) == Some(j as nat));
            assert(put(s, kv, vv) == s.update(j as int, (kv, vv)));
            assert(pairs_view(v@) == put(pairs_view(old(v)@), kv, vv));
            return;
        }
        j += 1;
    }
    proof {
        lemma_key_index(s, k@);
        if let Some(x) = key_index(s, k@) {
            assert(s[x as int].0 == k@);
        }
    }
    v.push((k, val));
    assert(pairs_view(v@) =~= s.push((kv, vv)));
}

// ---------------------------------------------------------------------------
// Ordering stroke files by path
// ---------------------------------------------------------------------------

/// `a` comes before `b` or equals it, character by character (the order of
/// paths in one folder).
pub open spec fn path_le(a: Seq<char>, b: Seq<char>) -> bool
    decreases a.len(),
{
    if a.len() == 0 {
        true
    } else if b.len() == 0 {
        false
    } else if a[0] != b[0] {
        a[0] < b[0]
    } else {
        path_le(a.drop_first(), b.drop_first())
    }
}

pub proof fn lemma_path_le_total(a: Seq<char>, b: Seq<char>)
    ensures
        path_le(a, b) || path_le(b, a),
    decreases a.len(),
{
    if a.len() > 0 && b.len() > 0 && a[0] == b[0] {
        lemma_path_le_total(a.drop_first(), b.drop_first());
    }
}

pub proof fn lemma_path_le_trans(a: Seq<char>, b: Seq<char>, c: Seq<char>)
    requires
        path_le(a, b),
        path_le(b, c),
    ensures
        path_le(a, c),
    decreases a.len(),
{
    if a.len() > 0 && b.len() > 0 && c.len() > 0 && a[0] == b[0] && b[0] == c[0] {
        lemma_path_le_trans(a.drop_first(), b.drop_first(), c.drop_first());
    }
}

/// The pairs are in order of their second part (the path).
pub open spec fn sorted_by_path(s: Seq<(Seq<char>, Seq<char>)>) -> bool {
    forall|i: int, j: int| 0 <= i < j < s.len() ==> path_le((#[trigger] s[i]).1, (#[trigger] s[j]).1)
}

pub(crate) fn path_le_exec(a: &String, b: &String) -> (r: bool)
    ensures
        r == path_le(a@, b@),
{
    let x = chars_of(a.as_str());
    let y = chars_of(b.as_str());
    let mut i: usize = 0;
    assert(x@.skip(0) =~= x@ && y@.skip(0) =~= y@);
    while i < x.len() && i < y.len() && x[i] == y[i]
        invariant
            i <= x.len(),
            i <= y.len(),
            path_le(a@, b@) == path_le(x@.skip(i as int), y@.skip(i as int)),
            x@ == a@,
            y@ == b@,
        decreases x.len() - i,
    {
        assert(x@.skip(i as int).drop_first() =~= x@.skip(i + 1));
        assert(y@.skip(i as int).drop_first() =~= y@.skip(i + 1));
        i += 1;
    }
    if i == x.len() {
        true
    } else if i == y.len() {
        false
    } else {
        x[i] < y[i]
    }
}

/// The pairs sorted by path (insertion sort).
fn sort_by_path(found: Vec<(String, String)>) -> (r: Vec<(String, String)>)
    ensures
        pairs_view(r@).to_multiset() == pairs_view(found@).to_multiset(),
        sorted_by_path(pairs_view(r@)),
{
    broadcast use vstd::seq_lib::group_to_multiset_ensures;
    broadcast use vstd::multiset::group_multiset_axioms;

    let ghost all = pairs_view(found@);
    let mut rest = found;
    let mut out: Vec<(String, String)> = Vec::new();
    assert(pairs_view(out@) =~= Seq::<(Seq<char>, Seq<char>)>::empty());
    while rest.len() > 0
        invariant
            pairs_view(out@).to_multiset().add(pairs_view(rest@).to_multiset()) == all.to_multiset(),
            sorted_by_path(pairs_view(out@)),
        decreases rest.len(),
    {
        let ghost r0 = pairs_view(rest@);
        let e = rest.pop().unwrap();
        assert(r0 =~= pairs_view(rest@).push((e.0@, e.1@)));
        let ghost o = pairs_view(out@);
        let mut j: usize = 0;
        while j < out.len() && path_le_exec(&out[j].1, &e.1)
            invariant
                j <= out.len(),
                o == pairs_view(out@),
                forall|i: int| 0 <= i < j ==> path_le((#[trigger] o[i]).1, e.1@),
            decreases out.len() - j,
        {
            j += 1;
        }
        let ghost ev = (e.0@, e.1@);
        out.insert(j, e);
        let ghost n = pairs_view(out@);
        assert(n =~= o.insert(j as int, ev));
        proof {
            vstd::seq_lib::to_multiset_insert(o, j as int, ev);
            if j < o.len() {
                lemma_path_le_total(o[j as int].1, ev.1);
            }
            assert forall|a: int, b: int| 0 <= a < b < n.len() implies path_le(
                (#[trigger] n[a]).1,
                (#[trigger] n[b]).1,
            ) by {
                if b < j {
                    assert(n[a] == o[a] && n[b] == o[b]);
                } else if b == j {
                    assert(n[a] == o[a]);
                } else if a == j {
                    assert(n[b] == o[b - 1]);
                    if j + 1 < b {
                        lemma_path_le_trans(ev.1, o[j as int].1, o[b - 1].1);
                    }
                } else if a < j {
                    assert(n[a] == o[a] && n[b] == o[b - 1]);
                } else {
                    assert(n[a] == o[a - 1] && n[b] == o[b - 1]);
                }
            }
            let rs = pairs_view(rest@);
            vstd::seq_lib::to_multiset_build(rs, ev);
            assert(r0 == rs.push(ev));
            assert(r0.to_multiset() =~= rs.to_multiset().insert(ev));
            assert(n.to_multiset() =~= o.to_multiset().insert(ev));
            assert(n.to_multiset().add(rs.to_multiset()) =~= o.to_multiset().add(r0.to_multiset()));
        }
    }
    assert(pairs_view(rest@) =~= Seq::<(Seq<char>, Seq<char>)>::empty());
    assert(pairs_view(out@).to_multiset().add(vstd::multiset::Multiset::empty()) =~= pairs_view(out@).to_multiset());
    out
}

/// The pairs `s` put one after the other into an empty map.
pub open spec fn put_all(s: Seq<(Seq<char>, Seq<char>)>) -> Seq<(Seq<char>, Seq<char>)>
    decreases s.len(),
{
    if s.len() == 0 {
        seq![]
    } else {
        put(put_all(s.drop_last()), s.last().0, s.last().1)
    }
}

pub proof fn lemma_put_all_unique(s: Seq<(Seq<char>, Seq<char>)>)
    ensures
        keys_unique(put_all(s)),
    decreases s.len(),
{
    if s.len() > 0 {
        lemma_put_all_unique(s.drop_last());
        lemma_put_unique(put_all(s.drop_last()), s.last().0, s.last().1);
    }
}

impl ExtractedRmdoc {
    pub open spec fn rm_files_view(&self) -> Seq<Seq<char>> {
        self.rm_files@.map_values(|s: String| s@)
    }

    pub open spec fn by_page_view(&self) -> Seq<(Seq<char>, Seq<char>)> {
        pairs_view(self.rm_files_by_page@)
    }

    pub open spec fn pages_view(&self) -> Seq<Seq<char>> {
        self.metadata.pages@.map_values(|s: String| s@)
    }

    /// The extracted document, given for each page of `metadata.pages` the
    /// path of its stroke file where there is one.
    pub fn from_pages(
        doc_id: String,
        metadata: ContentMetadata,
        page_files: Vec<Option<String>>,
        pdf_path: Option<String>,
        extract_dir: String,
    ) -> (r: Self)
        requires
            page_files.len() == metadata.pages.len(),
        ensures
            r.doc_id == doc_id,
            r.metadata == metadata,
            r.pdf_path == pdf_path,
            r.extract_dir == extract_dir,
            r.rm_files_view() == present_files(
                page_files@.map_values(|o: Option<String>| match o {
                    Some(s) => Some(s@),
                    None => None,
                }),
            ),
            r.by_page_view() == files_by_page(
                metadata.pages@.map_values(|s: String| s@),
                page_files@.map_values(|o: Option<String>| match o {
                    Some(s) => Some(s@),
                    None => None,
                }),
            ),
            keys_unique(r.by_page_view()),
    {
        let ghost fv = page_files@.map_values(
            |o: Option<String>| match o {
                Some(s) => Some(s@),
                None => None,
            },
        );
        let ghost pv = metadata.pages@.map_values(|s: String| s@);
        let mut rm_files: Vec<String> = Vec::new();
        let mut by_page: Vec<(String, String)> = Vec::new();
        let n = page_files.len();
        let mut i: usize = 0;
        while i < n
            invariant
                n == page_files.len() == metadata.pages.len(),
                i <= n,
                fv == page_files@.map_values(
                    |o: Option<String>| match o {
                        Some(s) => Some(s@),
                        None => None,
                    },
                ),
                pv == metadata.pages@.map_values(|s: String| s@),
                rm_files@.map_values(|s: String| s@) == present_files(fv.take(i as int)),
                pairs_view(by_page@) == files_by_page(
                    pv.take(i as int),
                    fv.take(i as int),
                ),
            decreases n - i,
        {
            assert(fv.take(i + 1).drop_last() =~= fv.take(i as int));
            assert(pv.take(i + 1).drop_last() =~= pv.take(i as int));
            let ghost r0 = rm_files@.map_values(|s: String| s@);
            match &page_files[i] {
                Some(f) => {
                    let f1 = f.clone();
                    let f2 = f.clone();
                    let p = metadata.pages[i].clone();
                    rm_files.push(f1);
                    assert(p@ == pv[i as int]);
                    put_exec(&mut by_page, p, f2);
                    assert(rm_files@.map_values(|s: String| s@) =~= r0.push(f@));
                },
                None => {},
            }
            i += 1;
        }
        assert(fv.take(n as int) =~= fv);
        assert(pv.take(n as int) =~= pv);
        proof {
            lemma_files_by_page_unique(pv, fv);
        }
        ExtractedRmdoc {
            doc_id,
            metadata,
            rm_files,
            rm_files_by_page: by_page,
            pdf_path,
            extract_dir,
        }
    }

    /// The extracted document of a notebook whose page list is empty, given
    /// the stroke files found in its folder (page UUID and path, in any
    /// order): the files come out sorted by path, and each page UUID maps to
    /// its file.
    pub fn from_scanned_files(
        doc_id: String,
        metadata: ContentMetadata,
        found: Vec<(String, String)>,
        pdf_path: Option<String>,
        extract_dir: String,
    ) -> (r: Self)
        ensures
            r.doc_id == doc_id,
            r.metadata == metadata,
            r.pdf_path == pdf_path,
            r.extract_dir == extract_dir,
            exists|s: Seq<(Seq<char>, Seq<char>)>|
                #![trigger sorted_by_path(s)]
                sorted_by_path(s) && s.to_multiset() == pairs_view(found@).to_multiset()
                    && r.rm_files_view() == s.map_values(|p: (Seq<char>, Seq<char>)| p.1)
                    && r.by_page_view() == put_all(s),
            keys_unique(r.by_page_view()),
    {
        let sorted = sort_by_path(found);
        let ghost sv = pairs_view(sorted@);
        let mut rm_files: Vec<String> = Vec::new();
        let mut by_page: Vec<(String, String)> = Vec::new();
        let mut i: usize = 0;
        assert(sv.take(0) =~= Seq::<(Seq<char>, Seq<char>)>::empty());
        while i < sorted.len()
            invariant
                i <= sorted.len(),
                sv == pairs_view(sorted@),
                rm_files@.map_values(|s: String| s@) == sv.take(i as int).map_values(
                    |p: (Seq<char>, Seq<char>)| p.1,
                ),
                pairs_view(by_page@) == put_all(sv.take(i as int)),
            decreases sorted.len() - i,
        {
            let ghost r0 = rm_files@.map_values(|s: String| s@);
            let f = sorted[i].1.clone();
            let k = sorted[i].0.clone();
            assert(f@ == sv[i as int].1 && k@ == sv[i as int].0);
            rm_files.push(f);
            assert(rm_files@.map_values(|s: String| s@) =~= r0.push(sv[i as int].1));
            assert(sv.take(i + 1).map_values(|p: (Seq<char>, Seq<char>)| p.1) =~= sv.take(
                i as int,
            ).map_values(|p: (Seq<char>, Seq<char>)| p.1).push(sv[i as int].1));
            let f2 = sorted[i].1.clone();
            put_exec(&mut by_page, k, f2);
            assert(sv.take(i + 1).drop_last() =~= sv.take(i as int));
            i += 1;
        }
        assert(sv.take(sorted.len() as int) =~= sv);
        proof {
            lemma_put_all_unique(sv);
        }
        let r = ExtractedRmdoc { doc_id, metadata, rm_files, rm_files_by_page: by_page, pdf_path, extract_dir };
        assert(sorted_by_path(sv));
        r
    }

    /// Whether the page with this UUID has annotations.
    pub open spec fn has_annotations_spec(&self, page_uuid: Seq<char>) -> bool {
        exists|i: int| 0 <= i < self.rm_files_by_page.len() && #[trigger] self.by_page_view()[i].0 == page_uuid
    }

    /// Whether the page with this UUID has annotations.
    pub fn page_has_annotations(&self, page_uuid: &str) -> (b: bool)
        ensures
            b == self.has_annotations_spec(page_uuid@),
    {
        let mut i: usize = 0;
        while i < self.rm_files_by_page.len()
            invariant
                i <= self.rm_files_by_page.len(),
                forall|j: int| 0 <= j < i ==> #[trigger] self.by_page_view()[j].0 != page_uuid@,
            decreases self.rm_files_by_page.len() - i,
        {
            if str_eq(self.rm_files_by_page[i].0.as_str(), page_uuid) {
                assert(self.by_page_view()[i as int].0 == page_uuid@);
                return true;
            }
            i += 1;
        }
        false
    }
}

} // verus!

use vstd::prelude::*;

use crate::numbers::{
    decimal, decimal_chars, digits_value, lemma_zero_pad_decimal_value, zero_pad, zero_pad_chars,
};
use crate::rmdoc::{lemma_path_le_total, lemma_path_le_trans, path_le, path_le_exec, ExtractedRmdoc};
use crate::text::{
    chars_of, extend_chars, extend_str, has_prefix, has_prefix_at, starts_with, str_eq, string_of,
};

verus! {

/// JSON output of the pull command.
pub struct PullOutput {
    pub document_name: String,
    pub file_type: String,
    pub pages: Vec<String>,
    pub has_annotations: bool,
}

/// How a pulled document is turned into page images.
#[derive(Debug, Clone, Copy, PartialEq, Eq, Structural)]
pub enum DocumentKind {
    /// A PDF, with or without annotations.
    Pdf,
    /// An EPUB (not supported).
    Epub,
    /// A handwritten notebook (any other file type, including none).
    Notebook,
}

/// The kind of a document from the `fileType` of its metadata.
pub open spec fn document_kind_spec(file_type: Seq<char>) -> DocumentKind {
    if file_type == "pdf"@ {
        DocumentKind::Pdf
    } else if file_type == "epub"@ {
        DocumentKind::Epub
    } else {
        DocumentKind::Notebook
    }
}

/// The kind of a document from the `fileType` of its metadata.
pub fn document_kind(file_type: &str) -> (k: DocumentKind)
    ensures
        k == document_kind_spec(file_type@),
{
    if str_eq(file_type, "pdf") {
        DocumentKind::Pdf
    } else if str_eq(file_type, "epub") {
        DocumentKind::Epub
    } else {
        DocumentKind::Notebook
    }
}

/// The file name of the `n`th output page image: `page-NNN.png`, the
/// number zero-padded to three digits.
pub open spec fn page_file_name_spec(n: nat) -> Seq<char> {
    "page-"@ + zero_pad(decimal(n), 3) + ".png"@
}

/// The file name of the `page_num`th output page image.
pub fn page_file_name(page_num: usize) -> (r: String)
    ensures
        r@ == page_file_name_spec(page_num as nat),
{
    let mut v = chars_of("page-");
    let d = decimal_chars(page_num as u64);
    let p = zero_pad_chars(d, 3);
    extend_chars(&mut v, &p);
    extend_str(&mut v, ".png");
    string_of(&v)
}

/// Distinct page numbers give distinct file names, so no output page image
/// overwrites another.
pub proof fn lemma_page_file_names_distinct(n: nat, m: nat)
    requires
        n != m,
    ensures
        page_file_name_spec(n) != page_file_name_spec(m),
{
    reveal_strlit("page-");
    reveal_strlit(".png");
    let a = zero_pad(decimal(n), 3);
    let b = zero_pad(decimal(m), 3);
    lemma_zero_pad_decimal_value(n, 3);
    lemma_zero_pad_decimal_value(m, 3);
    if page_file_name_spec(n) == page_file_name_spec(m) {
        let s = page_file_name_spec(n);
        assert(s.len() == 9 + a.len());
        assert(a.len() == b.len());
        assert(s.subrange(5, 5 + a.len() as int) =~= a);
        assert(page_file_name_spec(m).subrange(5, 5 + b.len() as int) =~= b);
        assert(a == b);
    }
}

// ---------------------------------------------------------------------------
// Rendered page images
// ---------------------------------------------------------------------------

/// A file that the PDF renderer wrote for a page: `page-*.png`.
pub open spec fn is_page_image(name: Seq<char>) -> bool {
    &&& starts_with(name, "page-"@)
    &&& name.len() >= 4
    &&& name.skip(name.len() - 4) == ".png"@
}

/// The page images among the file names `names`, in their order.
pub open spec fn keep_page_images(names: Seq<Seq<char>>) -> Seq<Seq<char>>
    decreases names.len(),
{
    if names.len() == 0 {
        seq![]
    } else if is_page_image(names.last()) {
        keep_page_images(names.drop_last()).push(names.last())
    } else {
        keep_page_images(names.drop_last())
    }
}

/// The names are in order.
pub open spec fn names_sorted(s: Seq<Seq<char>>) -> bool {
    forall|i: int, j: int| 0 <= i < j < s.len() ==> path_le(#[trigger] s[i], #[trigger] s[j])
}

pub open spec fn names_view(v: Seq<String>) -> Seq<Seq<char>> {
    v.map_values(|s: String| s@)
}

fn is_page_image_exec(name: &String) -> (b: bool)
    ensures
        b == is_page_image(name@),
{
    proof {
        reveal_strlit("page-");
        reveal_strlit(".png");
    }
    let v = chars_of(name.as_str());
    if !has_prefix(&v, "page-") || v.len() < 4 {
        return false;
    }
    let suffix = chars_of(".png");
    let b = has_prefix_at(&v, v.len() - 4, &suffix);
    assert(b == (v@.skip(v.len() - 4) == ".png"@)) by {
        if b {
            assert(v@.skip(v.len() - 4).take(4) =~= v@.skip(v.len() - 4));
        }
        if v@.skip(v.len() - 4) == ".png"@ {
            assert(v@.skip(v.len() - 4).take(4) =~= v@.skip(v.len() - 4));
        }
    }
    b
}

/// The rendered page images among the file names of the output folder, in
/// page order (sorted by name).
pub fn page_images(names: Vec<String>) -> (r: Vec<String>)
    ensures
        names_sorted(names_view(r@)),
        names_view(r@).to_multiset() == keep_page_images(names_view(names@)).to_multiset(),
{
    broadcast use vstd::seq_lib::group_to_multiset_ensures;
    broadcast use vstd::multiset::group_multiset_axioms;

    let ghost nv = names_view(names@);
    let mut kept: Vec<String> = Vec::new();
    let mut i: usize = 0;
    let mut names = names;
    while i < names.len()
        invariant
            i <= names.len(),
            nv == names_view(names@),
            names_view(kept@) == keep_page_images(nv.take(i as int)),
        decreases names.len() - i,
    {
        assert(nv.take(i + 1).drop_last() =~= nv.take(i as int));
        if is_page_image_exec(&names[i]) {
            let ghost k0 = names_view(kept@);
            let n = names[i].clone();
            kept.push(n);
            assert(names_view(kept@) =~= k0.push(nv[i as int]));
        }
        i += 1;
    }
    assert(nv.take(names.len() as int) =~= nv);
    let ghost all = names_view(kept@);
    let mut rest = kept;
    let mut out: Vec<String> = Vec::new();
    assert(names_view(out@) =~= Seq::<Seq<char>>::empty());
    while rest.len() > 0
        invariant
            names_view(out@).to_multiset().add(names_view(rest@).to_multiset()) == all.to_multiset(),
            names_sorted(names_view(out@)),
        decreases rest.len(),
    {
        let ghost r0 = names_view(rest@);
        let e = rest.pop().unwrap();
        let ghost o = names_view(out@);
        let mut j: usize = 0;
        while j < out.len() && path_le_exec(&out[j], &e)
            invariant
                j <= out.len(),
                o == names_view(out@),
                forall|i: int| 0 <= i < j ==> path_le(#[trigger] o[i], e@),
            decreases out.len() - j,
        {
            j += 1;
        }
        let ghost ev = e@;
        out.insert(j, e);
        let ghost n = names_view(out@);
        assert(n =~= o.insert(j as int, ev));
        proof {
            vstd::seq_lib::to_multiset_insert(o, j as int, ev);
            if j < o.len() {
                lemma_path_le_total(o[j as int], ev);
            }
            assert forall|a: int, b: int| 0 <= a < b < n.len() implies path_le(
                #[trigger] n[a],
                #[trigger] n[b],
            ) by {
                if b < j {
                    assert(n[a] == o[a] && n[b] == o[b]);
                } else if b == j {
                    assert(n[a] == o[a]);
                } else if a == j {
                    assert(n[b] == o[b - 1]);
                    if j + 1 < b {
                        lemma_path_le_trans(ev, o[j as int], o[b - 1]);
                    }
                } else if a < j {
                    assert(n[a] == o[a] && n[b] == o[b - 1]);
                } else {
                    assert(n[a] == o[a - 1] && n[b] == o[b - 1]);
                }
            }
            let rs = names_view(rest@);
            assert(r0 =~= rs.push(ev));
            vstd::seq_lib::to_multiset_build(rs, ev);
            assert(r0.to_multiset() =~= rs.to_multiset().insert(ev));
            assert(n.to_multiset() =~= o.to_multiset().insert(ev));
            assert(n.to_multiset().add(rs.to_multiset()) =~= o.to_multiset().add(r0.to_multiset()));
        }
    }
    assert(names_view(rest@) =~= Seq::<Seq<char>>::empty());
    assert(names_view(out@).to_multiset().add(vstd::multiset::Multiset::empty()) =~= names_view(
        out@,
    ).to_multiset());
    out
}

/// Where an output page image of a PDF document comes from.
#[derive(Debug, Clone, Copy, PartialEq, Eq, Structural)]
pub enum PageSource {
    /// The annotations composited onto the rendered page `base`.
    Composite { base: usize },
    /// The annotations rendered alone (the PDF has no such page).
    Standalone,
    /// The rendered page `base` as it is.
    CopyBase { base: usize },
}

/// An output page image: its number and where it comes from.
#[derive(Debug, Clone, Copy, PartialEq, Eq, Structural)]
pub struct PagePlan {
    pub page_num: usize,
    pub source: PageSource,
}

/// The output page images of a PDF document.
pub struct PdfPlan {
    pub has_annotations: bool,
    pub pages: Vec<PagePlan>,
}

/// The output image, if any, for the page at `index` of the metadata's page
/// list, given whether it has annotations and how many pages were rendered.
pub open spec fn page_plan(index: nat, annotated: bool, n_base: nat) -> Option<PagePlan> {
    if annotated {
        if index < n_base {
            Some(PagePlan { page_num: (index + 1) as usize, source: PageSource::Composite { base: index as usize } })
        } else {
            Some(PagePlan { page_num: (index + 1) as usize, source: PageSource::Standalone })
        }
    } else if index < n_base {
        Some(PagePlan { page_num: (index + 1) as usize, source: PageSource::CopyBase { base: index as usize } })
    } else {
        None
    }
}

/// The output images for the first `k` pages of the metadata's page list.
pub open spec fn annotated_plans(ext: ExtractedRmdoc, k: nat, n_base: nat) -> Seq<PagePlan>
    decreases k,
{
    if k == 0 {
        seq![]
    } else {
        let i = (k - 1) as nat;
        let prev = annotated_plans(ext, i, n_base);
        match page_plan(i, ext.has_annotations_spec(ext.pages_view()[i as int]), n_base) {
            Some(p) => prev.push(p),
            None => prev,
        }
    }
}

/// The output images of a PDF document with `n_base` rendered pages: each
/// rendered page as it is when there are no annotations; otherwise one per
/// page of the metadata's page list, annotated pages composited.
pub open spec fn pdf_plan_spec(ext: ExtractedRmdoc, n_base: nat) -> Seq<PagePlan> {
    if ext.rm_files_by_page.len() == 0 {
        Seq::new(
            n_base,
            |i: int| PagePlan { page_num: (i + 1) as usize, source: PageSource::CopyBase { base: i as usize } },
        )
    } else {
        annotated_plans(ext, ext.metadata.pages.len() as nat, n_base)
    }
}

/// An output image planned for a page is numbered after that page and takes
/// an existing rendered page, the one at its own position.
pub open spec fn plan_fits(p: PagePlan, n_base: nat) -> bool {
    &&& p.page_num >= 1
    &&& match p.source {
        PageSource::Composite { base } => base < n_base && base + 1 == p.page_num,
        PageSource::CopyBase { base } => base < n_base && base + 1 == p.page_num,
        PageSource::Standalone => true,
    }
}

proof fn lemma_annotated_plans_ordered(ext: ExtractedRmdoc, k: nat, n_base: nat)
    requires
        k <= ext.metadata.pages.len(),
    ensures
        forall|i: int|
            0 <= i < annotated_plans(ext, k, n_base).len() ==> plan_fits(
                #[trigger] annotated_plans(ext, k, n_base)[i],
                n_base,
            ) && annotated_plans(ext, k, n_base)[i].page_num <= k,
        forall|i: int, j: int|
            0 <= i < j < annotated_plans(ext, k, n_base).len() ==> (#[trigger] annotated_plans(
                ext,
                k,
                n_base,
            )[i]).page_num < (#[trigger] annotated_plans(ext, k, n_base)[j]).page_num,
    decreases k,
{
    if k > 0 {
        lemma_annotated_plans_ordered(ext, (k - 1) as nat, n_base);
    }
}

/// The output images of a PDF document are numbered in increasing order
/// (so each gets a file name of its own), and each copied or composited
/// page is a rendered page at the same position.
pub proof fn lemma_pdf_plan_ordered(ext: ExtractedRmdoc, n_base: usize)
    ensures
        forall|i: int|
            0 <= i < pdf_plan_spec(ext, n_base as nat).len() ==> plan_fits(
                #[trigger] pdf_plan_spec(ext, n_base as nat)[i],
                n_base as nat,
            ),
        forall|i: int, j: int|
            0 <= i < j < pdf_plan_spec(ext, n_base as nat).len() ==> (#[trigger] pdf_plan_spec(
                ext,
                n_base as nat,
            )[i]).page_num < (#[trigger] pdf_plan_spec(ext, n_base as nat)[j]).page_num,
{
    if ext.rm_files_by_page.len() > 0 {
        lemma_annotated_plans_ordered(ext, ext.metadata.pages.len() as nat, n_base as nat);
    }
}

/// Plan the output images of a PDF document with `n_base` rendered pages.
pub fn plan_pdf_pages(extracted: &ExtractedRmdoc, n_base: usize) -> (r: PdfPlan)
    ensures
        r.has_annotations == (extracted.rm_files_by_page.len() > 0),
        r.pages@ == pdf_plan_spec(*extracted, n_base as nat),
{
    let mut pages: Vec<PagePlan> = Vec::new();
    if extracted.rm_files_by_page.len() == 0 {
        let mut i: usize = 0;
        while i < n_base
            invariant
                i <= n_base,
                pages@ == Seq::new(
                    i as nat,
                    |j: int| PagePlan { page_num: (j + 1) as usize, source: PageSource::CopyBase { base: j as usize } },
                ),
            decreases n_base - i,
        {
            pages.push(PagePlan { page_num: i + 1, source: PageSource::CopyBase { base: i } });
            assert(pages@ =~= Seq::new(
                (i + 1) as nat,
                |j: int| PagePlan { page_num: (j + 1) as usize, source: PageSource::CopyBase { base: j as usize } },
            ));
            i += 1;
        }
        return PdfPlan { has_annotations: false, pages };
    }
    let n = extracted.metadata.pages.len();
    let mut i: usize = 0;
    while i < n
        invariant
            n == extracted.metadata.pages.len(),
            i <= n,
            pages@ == annotated_plans(*extracted, i as nat, n_base as nat),
        decreases n - i,
    {
        let annotated = extracted.page_has_annotations(extracted.metadata.pages[i].as_str());
        assert(extracted.pages_view()[i as int] == extracted.metadata.pages@[i as int]@);
        if annotated {
            if i < n_base {
                pages.push(PagePlan { page_num: i + 1, source: PageSource::Composite { base: i } });
            } else {
                pages.push(PagePlan { page_num: i + 1, source: PageSource::Standalone });
            }
        } else if i < n_base {
            pages.push(PagePlan { page_num: i + 1, source: PageSource::CopyBase { base: i } });
        }
        i += 1;
    }
    PdfPlan { has_annotations: true, pages }
}

} // verus!

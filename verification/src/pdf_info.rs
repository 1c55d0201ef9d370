use vstd::prelude::*;

use crate::text::{
    copy_range, has_prefix, lines_of, split_lines, split_words, starts_with, string_of, trim,
    trim_bounds, words,
};

verus! {

/// The width and height fields of a `pdfinfo` line of the form
/// `Page size:      W x H pts (...)`, if `line` is one.
pub open spec fn page_size_line(line: Seq<char>) -> Option<(Seq<char>, Seq<char>)> {
    let t = trim(line);
    if starts_with(t, "Page size:"@) {
        let parts = words(trim(t.skip(10)));
        if parts.len() >= 3 && parts[1] == "x"@ {
            Some((parts[0], parts[2]))
        } else {
            None
        }
    } else {
        None
    }
}

/// The width and height fields of the first such line among `lines`.
pub open spec fn page_size_fields_spec(lines: Seq<Seq<char>>) -> Option<(Seq<char>, Seq<char>)>
    decreases lines.len(),
{
    if lines.len() == 0 {
        None
    } else {
        match page_size_line(lines[0]) {
            Some(p) => Some(p),
            None => page_size_fields_spec(lines.drop_first()),
        }
    }
}

/// A line that is no `Page size:` line (such as the `Pages:` line that
/// `pdfinfo` prints first) does not change the page size read from the
/// lines after it.
pub proof fn lemma_other_line_skipped(l: Seq<char>, rest: Seq<Seq<char>>)
    requires
        page_size_line(l) is None,
    ensures
        page_size_fields_spec(seq![l] + rest) == page_size_fields_spec(rest),
{
    assert((seq![l] + rest)[0] == l);
    assert((seq![l] + rest).drop_first() =~= rest);
}

/// The page size read from `pdfinfo` output lines is that of the first
/// `Page size:` line among them, wherever it stands; none is read only when
/// no line is one.
pub proof fn lemma_first_page_size_line(ls: Seq<Seq<char>>)
    ensures
        page_size_fields_spec(ls) matches Some(p) ==> exists|i: int|
            0 <= i < ls.len() && page_size_line(#[trigger] ls[i]) == Some(p) && forall|j: int|
                0 <= j < i ==> page_size_line(#[trigger] ls[j]) is None,
        page_size_fields_spec(ls) is None ==> forall|i: int|
            0 <= i < ls.len() ==> page_size_line(#[trigger] ls[i]) is None,
    decreases ls.len(),
{
    if ls.len() > 0 {
        let t = ls.drop_first();
        lemma_first_page_size_line(t);
        if page_size_line(ls[0]) is None {
            if let Some(p) = page_size_fields_spec(t) {
                let i = choose|i: int|
                    0 <= i < t.len() && page_size_line(#[trigger] t[i]) == Some(p) && forall|j: int|
                        0 <= j < i ==> page_size_line(#[trigger] t[j]) is None;
                assert(ls[i + 1] == t[i]);
                assert forall|j: int| 0 <= j < i + 1 implies page_size_line(#[trigger] ls[j]) is None by {
                    if j > 0 {
                        assert(ls[j] == t[j - 1]);
                    }
                }
            } else {
                assert forall|i: int| 0 <= i < ls.len() implies page_size_line(#[trigger] ls[i]) is None by {
                    if i > 0 {
                        assert(ls[i] == t[i - 1]);
                    }
                }
            }
        }
    }
}

fn page_size_line_exec(line: &Vec<char>) -> (r: Option<(String, String)>)
    ensures
        match r {
            Some((w, h)) => page_size_line(line@) == Some((w@, h@)),
            None => page_size_line(line@) is None,
        },
{
    proof {
        reveal_strlit("Page size:");
        reveal_strlit("x");
    }
    let (a, b) = trim_bounds(line);
    let t = copy_range(line, a, b);
    if !has_prefix(&t, "Page size:") {
        return None;
    }
    let rest = copy_range(&t, 10, t.len());
    assert(rest@ =~= t@.skip(10));
    let (c, d) = trim_bounds(&rest);
    let r = copy_range(&rest, c, d);
    let parts = split_words(&r);
    let ghost pv = parts@.map_values(|w: Vec<char>| w@);
    if parts.len() >= 3 && parts[1].len() == 1 && parts[1][0] == 'x' {
        assert(pv[1] =~= "x"@);
        Some((string_of(&parts[0]), string_of(&parts[2])))
    } else {
        proof {
            if parts.len() >= 3 && pv[1] == "x"@ {
                assert(pv[1][0] == 'x');
            }
        }
        None
    }
}

/// The page width and height fields, as text, of the first `Page size:`
/// line of `pdfinfo` output that has the form `W x H ...`.
pub fn page_size_fields(pdfinfo_output: &str) -> (r: Option<(String, String)>)
    ensures
        match r {
            Some((w, h)) => page_size_fields_spec(lines_of(pdfinfo_output@)) == Some((w@, h@)),
            None => page_size_fields_spec(lines_of(pdfinfo_output@)) is None,
        },
{
    let v = crate::text::chars_of(pdfinfo_output);
    let lines = split_lines(&v);
    let ghost ls = lines@.map_values(|l: Vec<char>| l@);
    let mut k: usize = 0;
    assert(ls.skip(0) =~= ls);
    while k < lines.len()
        invariant
            k <= lines.len(),
            ls == lines@.map_values(|l: Vec<char>| l@),
            ls == lines_of(pdfinfo_output@),
            page_size_fields_spec(ls) == page_size_fields_spec(ls.skip(k as int)),
        decreases lines.len() - k,
    {
        assert(ls.skip(k as int)[0] == lines[k as int]@);
        assert(ls.skip(k as int).drop_first() =~= ls.skip(k + 1));
        match page_size_line_exec(&lines[k]) {
            Some(p) => {
                return Some(p);
            },
            None => {},
        }
        k += 1;
    }
    None
}

} // verus!

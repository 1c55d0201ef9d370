use vstd::prelude::*;

use crate::numbers::{parse_u32, parse_u32_spec};
use crate::remarkable::{basename_spec, lemma_rfind_joined, parent_spec};
use crate::text::{
    chars_of, copy_range, has_prefix, lines_of, push_chars, push_str, split_lines, starts_with,
    str_eq, string_of, trim, trim_bounds,
};

verus! {

/// JSON output of the push command.
pub struct PushOutput {
    pub uploaded: String,
    pub source: String,
    pub pages: u32,
}

/// What kind of file is pushed.
#[derive(Debug, Clone, Copy, PartialEq, Eq, Structural)]
pub enum SourceKind {
    /// Uploaded directly.
    Pdf,
    /// Converted to PDF first.
    Markdown,
}

/// The kind of a file with the given lowercase extension, if supported.
pub open spec fn source_kind_spec(ext: Seq<char>) -> Option<SourceKind> {
    if ext == "pdf"@ {
        Some(SourceKind::Pdf)
    } else if ext == "md"@ {
        Some(SourceKind::Markdown)
    } else {
        None
    }
}

/// The kind of a file from its lowercase extension; an unsupported one is
/// handed back as the error.
pub fn source_kind(lower_ext: &str) -> (r: Result<SourceKind, String>)
    ensures
        match r {
            Ok(k) => source_kind_spec(lower_ext@) == Some(k),
            Err(e) => source_kind_spec(lower_ext@) is None && e@ == lower_ext@,
        },
{
    if str_eq(lower_ext, "pdf") {
        Ok(SourceKind::Pdf)
    } else if str_eq(lower_ext, "md") {
        Ok(SourceKind::Markdown)
    } else {
        let mut e = String::new();
        push_str(&mut e, lower_ext);
        Err(e)
    }
}

/// What `str::to_lowercase` returns for a string (the string's Unicode
/// lowercase mapping).
pub uninterp spec fn lowercase(s: Seq<char>) -> Seq<char>;

/// Trusted: calls `str::to_lowercase`. The contract only names the result:
/// it is the Unicode lowercase mapping of the argument, a function of the
/// argument alone.
#[verifier::external_body]
fn to_lowercase(s: &str) -> (r: String)
    ensures
        r@ == lowercase(s@),
{
    s.to_lowercase()
}

/// The kind of a file from its extension, compared without regard to case;
/// an unsupported extension is handed back, lowercased, as the error.
pub fn classify_extension(ext: &str) -> (r: Result<SourceKind, String>)
    ensures
        match r {
            Ok(k) => source_kind_spec(lowercase(ext@)) == Some(k),
            Err(e) => source_kind_spec(lowercase(ext@)) is None && e@ == lowercase(ext@),
        },
{
    let lower = to_lowercase(ext);
    source_kind(lower.as_str())
}

/// `s` without its trailing slashes (`str::trim_end_matches('/')`).
pub open spec fn trim_trailing_slashes(s: Seq<char>) -> Seq<char>
    decreases s.len(),
{
    if s.len() > 0 && s.last() == '/' {
        trim_trailing_slashes(s.drop_last())
    } else {
        s
    }
}

/// The path of the uploaded file on the tablet: the destination folder
/// without trailing slashes, a slash, then the file name.
pub open spec fn remote_file_path_spec(dest: Seq<char>, file_name: Seq<char>) -> Seq<char> {
    trim_trailing_slashes(dest) + "/"@ + file_name
}

/// The path of the uploaded file on the tablet.
pub fn remote_file_path(dest: &str, file_name: &str) -> (r: String)
    ensures
        r@ == remote_file_path_spec(dest@, file_name@),
{
    let v = chars_of(dest);
    let mut end = v.len();
    assert(v@.take(end as int) =~= v@);
    while end > 0 && v[end - 1] == '/'
        invariant
            end <= v.len(),
            trim_trailing_slashes(v@) == trim_trailing_slashes(v@.take(end as int)),
        decreases end,
    {
        assert(v@.take(end as int).drop_last() =~= v@.take(end - 1));
        end -= 1;
    }
    let head = copy_range(&v, 0, end);
    assert(head@ =~= v@.take(end as int));
    let mut r = string_of(&head);
    push_str(&mut r, "/");
    push_str(&mut r, file_name);
    r
}

/// Trailing slashes on the destination make no difference to the path of
/// the uploaded file.
pub proof fn lemma_remote_path_trailing_slash(dest: Seq<char>, file_name: Seq<char>)
    ensures
        remote_file_path_spec(dest.push('/'), file_name) == remote_file_path_spec(dest, file_name),
{
    assert(dest.push('/').drop_last() =~= dest);
}

/// The uploaded file (the one deleted first and reported) lies directly in
/// the destination folder and carries the file's name.
pub proof fn lemma_remote_path_in_destination(dest: Seq<char>, file_name: Seq<char>)
    requires
        trim_trailing_slashes(dest).len() > 0,
        forall|i: int| 0 <= i < file_name.len() ==> file_name[i] != '/',
    ensures
        parent_spec(remote_file_path_spec(dest, file_name)) == Some(trim_trailing_slashes(dest)),
        basename_spec(remote_file_path_spec(dest, file_name)) == file_name,
{
    reveal_strlit("/");
    let d = trim_trailing_slashes(dest);
    let p = remote_file_path_spec(dest, file_name);
    lemma_rfind_joined(d, file_name);
    assert(p.take(d.len() as int) =~= d);
    assert(p.skip(d.len() + 1int) =~= file_name);
}

// ---------------------------------------------------------------------------
// Page count
// ---------------------------------------------------------------------------

/// Why no page count was read from `pdfinfo` output.
#[derive(Debug, Clone, Copy, PartialEq, Eq, Structural)]
pub enum PageCountError {
    /// No line starts with `Pages:`.
    NoPagesLine,
    /// The first `Pages:` line does not hold a `u32`.
    InvalidCount,
}

/// The page count in the first line among `lines` that starts (after
/// whitespace) with `Pages:`.
pub open spec fn page_count_lines(lines: Seq<Seq<char>>) -> Result<u32, PageCountError>
    decreases lines.len(),
{
    if lines.len() == 0 {
        Err(PageCountError::NoPagesLine)
    } else {
        let t = trim(lines[0]);
        if starts_with(t, "Pages:"@) {
            match parse_u32_spec(trim(t.skip(6))) {
                Some(n) => Ok(n),
                None => Err(PageCountError::InvalidCount),
            }
        } else {
            page_count_lines(lines.drop_first())
        }
    }
}

/// The number of pages that `pdfinfo` output gives.
pub fn parse_page_count(pdfinfo_output: &str) -> (r: Result<u32, PageCountError>)
    ensures
        r == page_count_lines(lines_of(pdfinfo_output@)),
{
    proof {
        reveal_strlit("Pages:");
    }
    let v = chars_of(pdfinfo_output);
    let lines = split_lines(&v);
    let ghost ls = lines@.map_values(|l: Vec<char>| l@);
    let mut k: usize = 0;
    assert(ls.skip(0) =~= ls);
    while k < lines.len()
        invariant
            k <= lines.len(),
            ls == lines@.map_values(|l: Vec<char>| l@),
            ls == lines_of(pdfinfo_output@),
            page_count_lines(ls) == page_count_lines(ls.skip(k as int)),
        decreases lines.len() - k,
    {
        assert(ls.skip(k as int)[0] == lines[k as int]@);
        assert(ls.skip(k as int).drop_first() =~= ls.skip(k + 1));
        let line = &lines[k];
        let (a, b) = trim_bounds(line);
        let t = copy_range(line, a, b);
        if has_prefix(&t, "Pages:") {
            proof {
                reveal_strlit("Pages:");
            }
            let rest = copy_range(&t, 6, t.len());
            assert(rest@ =~= t@.skip(6));
            let (c, d) = trim_bounds(&rest);
            let n = copy_range(&rest, c, d);
            return match parse_u32(&n) {
                Some(x) => Ok(x),
                None => Err(PageCountError::InvalidCount),
            };
        }
        k += 1;
    }
    Err(PageCountError::NoPagesLine)
}

/// The page count reported for a pushed PDF: what `pdfinfo` output gives,
/// or 1 when `pdfinfo` gave no usable output.
pub open spec fn reported_pages_spec(pdfinfo_output: Option<Seq<char>>) -> u32 {
    match pdfinfo_output {
        Some(out) => match page_count_lines(lines_of(out)) {
            Ok(n) => n,
            Err(_) => 1,
        },
        None => 1,
    }
}

/// The page count reported for a pushed PDF, given the output of a
/// successful `pdfinfo` run (`None` when it failed or could not run).
pub fn reported_pages(pdfinfo_output: Option<&str>) -> (n: u32)
    ensures
        n == reported_pages_spec(
            match pdfinfo_output {
                Some(s) => Some(s@),
                None => None,
            },
        ),
{
    match pdfinfo_output {
        Some(s) => match parse_page_count(s) {
            Ok(n) => n,
            Err(_) => 1,
        },
        None => 1,
    }
}

} // verus!

use vstd::prelude::*;
use vstd::string::StrSliceExecFns;

use crate::numbers::{decimal, decimal_chars};
use crate::text::{
    chars_of, copy_range, extend_chars, extend_str, find, find_from, has_prefix, has_prefix_at,
    is_whitespace, is_ws, lemma_find,
    lemma_find_is, lemma_ws_prefix_bound, lines_of, split_lines, split_words, starts_with,
    string_of, trim, trim_bounds, trim_start, words, ws_prefix_from,
};

verus! {

// ---------------------------------------------------------------------------
// Attributes
// ---------------------------------------------------------------------------

/// What introduces the value of the attribute `attr`: its name, `=` and a
/// double quote.
pub open spec fn attr_pattern(attr: Seq<char>) -> Seq<char> {
    attr + seq!['=', '"']
}

/// `attr="` stands at `k` of `element` as a whole attribute name: at the
/// start or after whitespace, so that `r` is not found inside `color`.
pub open spec fn attr_name_at(element: Seq<char>, attr: Seq<char>, k: int) -> bool {
    &&& 0 <= k <= element.len()
    &&& starts_with(element.skip(k), attr_pattern(attr))
    &&& (k == 0 || is_ws(element[k - 1]))
}

/// The first position at or after `i` where `attr="` stands as a whole
/// attribute name.
pub open spec fn attr_find_from(element: Seq<char>, attr: Seq<char>, i: nat) -> Option<nat>
    decreases element.len() + 1 - i,
{
    if i > element.len() {
        None
    } else if attr_name_at(element, attr, i as int) {
        Some(i)
    } else {
        attr_find_from(element, attr, i + 1)
    }
}

proof fn lemma_attr_find_from(element: Seq<char>, attr: Seq<char>, i: nat)
    ensures
        attr_find_from(element, attr, i) matches Some(k) ==> i <= k && attr_name_at(
            element,
            attr,
            k as int,
        ) && forall|j: int| i <= j < k ==> !attr_name_at(element, attr, j),
        attr_find_from(element, attr, i) is None ==> forall|j: int|
            i <= j <= element.len() ==> !attr_name_at(element, attr, j),
    decreases element.len() + 1 - i,
{
    if i <= element.len() && !attr_name_at(element, attr, i as int) {
        lemma_attr_find_from(element, attr, i + 1);
    }
}

proof fn lemma_attr_find_is(element: Seq<char>, attr: Seq<char>, i: nat, k: nat)
    requires
        i <= k,
        attr_name_at(element, attr, k as int),
        forall|j: int| i <= j < k ==> !attr_name_at(element, attr, j),
    ensures
        attr_find_from(element, attr, i) == Some(k),
    decreases k - i,
{
    if i < k {
        lemma_attr_find_is(element, attr, i + 1, k);
    }
}

/// Where the value of the first attribute named exactly `attr` in
/// `element` (`attr="..."` at the start or after whitespace) starts and
/// ends.
pub open spec fn attr_bounds(element: Seq<char>, attr: Seq<char>) -> Option<(nat, nat)> {
    let pat = attr_pattern(attr);
    match attr_find_from(element, attr, 0) {
        Some(k) => {
            let start = k + pat.len();
            match find(element.skip(start as int), seq!['"']) {
                Some(j) => Some((start, start + j)),
                None => None,
            }
        },
        None => None,
    }
}

/// The value of the first `attr="..."` of `element`, up to the next quote.
pub open spec fn extract_attr_spec(element: Seq<char>, attr: Seq<char>) -> Option<Seq<char>> {
    match attr_bounds(element, attr) {
        Some((a, b)) => Some(element.subrange(a as int, b as int)),
        None => None,
    }
}

/// `element` with the value of its first `attr="..."` replaced by `value`;
/// `element` itself when it has no such attribute.
pub open spec fn replace_attr_spec(element: Seq<char>, attr: Seq<char>, value: Seq<char>) -> Seq<
    char,
> {
    match attr_bounds(element, attr) {
        Some((a, b)) => element.take(a as int) + value + element.skip(b as int),
        None => element,
    }
}

pub proof fn lemma_attr_bounds(element: Seq<char>, attr: Seq<char>)
    ensures
        attr_bounds(element, attr) matches Some((a, b)) ==> (a <= b < element.len() && element[b as int]
            == '"'),
{
    let pat = attr_pattern(attr);
    lemma_attr_find_from(element, attr, 0);
    if let Some(k) = attr_find_from(element, attr, 0) {
        let start = k + pat.len();
        lemma_find(element.skip(start as int), seq!['"']);
        if let Some(j) = find(element.skip(start as int), seq!['"']) {
            assert(element.skip(start as int).skip(j as int).take(1)[0] == '"');
        }
    }
}

/// The first position where `pat` (the pattern of `attr`) stands as a whole
/// attribute name in `v`.
fn attr_pos(v: &Vec<char>, pat: &Vec<char>, attr: Ghost<Seq<char>>) -> (r: Option<usize>)
    requires
        pat@ == attr_pattern(attr@),
    ensures
        match r {
            Some(k) => attr_find_from(v@, attr@, 0) == Some(k as nat) && k <= v.len(),
            None => attr_find_from(v@, attr@, 0) is None,
        },
{
    let mut k: usize = 0;
    loop
        invariant
            k <= v.len(),
            pat@ == attr_pattern(attr@),
            attr_find_from(v@, attr@, 0) == attr_find_from(v@, attr@, k as nat),
        decreases v.len() - k,
    {
        if has_prefix_at(v, k, pat) && (k == 0 || is_whitespace(v[k - 1])) {
            assert(attr_name_at(v@, attr@, k as int));
            return Some(k);
        }
        if k == v.len() {
            assert(attr_find_from(v@, attr@, (k + 1) as nat) is None);
            return None;
        }
        k += 1;
    }
}

/// Where the value of the first attribute named exactly `attr` in `v`
/// starts and ends.
fn attr_bounds_exec(v: &Vec<char>, attr: &str) -> (r: Option<(usize, usize)>)
    ensures
        match r {
            Some((a, b)) => attr_bounds(v@, attr@) == Some((a as nat, b as nat)) && a <= b
                <= v.len(),
            None => attr_bounds(v@, attr@) is None,
        },
{
    let mut pat = chars_of(attr);
    pat.push('=');
    pat.push('"');
    assert(pat@ =~= attr_pattern(attr@));
    let quote = vec!['"'];
    assert(quote@ == seq!['"']);
    let k = match attr_pos(v, &pat, Ghost(attr@)) {
        Some(k) => k,
        None => return None,
    };
    proof {
        lemma_attr_find_from(v@, attr@, 0);
    }
    let start = k + pat.len();
    match find_from(v, start, &quote) {
        None => None,
        Some(e) => {
            proof {
                lemma_find(v@.skip(start as int), seq!['"']);
            }
            assert(quote@ == seq!['"']);
            assert(find(v@.skip(start as int), seq!['"']) == Some((e - start) as nat));
            Some((start, e))
        },
    }
}

/// Extract the value of a named attribute from an SVG element string.
pub fn extract_attr<'a>(element: &'a str, attr: &str) -> (r: Option<&'a str>)
    ensures
        match r {
            Some(x) => extract_attr_spec(element@, attr@) == Some(x@),
            None => extract_attr_spec(element@, attr@) is None,
        },
{
    let v = chars_of(element);
    match attr_bounds_exec(&v, attr) {
        Some((a, b)) => Some(element.substring_char(a, b)),
        None => None,
    }
}

/// Replace the value of a named attribute in an SVG element string.
pub fn replace_attr(element: &str, attr: &str, new_value: &str) -> (r: String)
    ensures
        r@ == replace_attr_spec(element@, attr@, new_value@),
{
    let v = chars_of(element);
    match attr_bounds_exec(&v, attr) {
        Some((a, b)) => {
            let mut out = copy_range(&v, 0, a);
            extend_str(&mut out, new_value);
            let tail = copy_range(&v, b, v.len());
            extend_chars(&mut out, &tail);
            assert(out@ =~= v@.take(a as int) + new_value@ + v@.skip(b as int));
            string_of(&out)
        },
        None => string_of(&v),
    }
}

/// Reading an attribute back after replacing its value gives the new value,
/// when the element had the attribute and the new value holds no quote.
pub proof fn lemma_extract_after_replace(element: Seq<char>, attr: Seq<char>, value: Seq<char>)
    requires
        attr_bounds(element, attr) is Some,
        forall|i: int| 0 <= i < value.len() ==> value[i] != '"',
    ensures
        extract_attr_spec(replace_attr_spec(element, attr, value), attr) == Some(value),
{
    let pat = attr_pattern(attr);
    lemma_attr_find_from(element, attr, 0);
    lemma_attr_bounds(element, attr);
    let k = attr_find_from(element, attr, 0)->0;
    let (a, b) = attr_bounds(element, attr)->0;
    let e2 = element.take(a as int) + value + element.skip(b as int);
    assert(a == k + pat.len());
    assert forall|j: int| 0 <= j < k implies !attr_name_at(e2, attr, j) by {
        assert(!attr_name_at(element, attr, j));
        assert(e2.skip(j).take(pat.len() as int) =~= element.skip(j).take(pat.len() as int));
        if j > 0 {
            assert(e2[j - 1] == element[j - 1]);
        }
        if starts_with(e2.skip(j), pat) {
            assert(starts_with(element.skip(j), pat));
        }
    }
    assert(e2.skip(k as int).take(pat.len() as int) =~= element.skip(k as int).take(
        pat.len() as int,
    ));
    if k > 0 {
        assert(e2[k - 1] == element[k - 1]);
    }
    assert(attr_name_at(e2, attr, k as int));
    lemma_attr_find_is(e2, attr, 0, k);
    let rest = e2.skip(a as int);
    assert(rest =~= value + element.skip(b as int));
    assert forall|j: int| 0 <= j < value.len() implies !starts_with(
        #[trigger] rest.skip(j),
        seq!['"'],
    ) by {
        assert(rest.skip(j).take(1)[0] == value[j]);
    }
    assert(rest.skip(value.len() as int).take(1) =~= seq!['"']);
    lemma_find_is(rest, seq!['"'], value.len() as int);
    assert(e2.subrange(a as int, a + value.len() as int) =~= value);
}

/// Writing back the value just read leaves the element as it was.
pub proof fn lemma_replace_with_extracted(element: Seq<char>, attr: Seq<char>)
    requires
        extract_attr_spec(element, attr) is Some,
    ensures
        replace_attr_spec(element, attr, extract_attr_spec(element, attr)->0) == element,
{
    lemma_attr_bounds(element, attr);
    let (a, b) = attr_bounds(element, attr)->0;
    assert(element.take(a as int) + element.subrange(a as int, b as int) + element.skip(b as int)
        =~= element);
}

// ---------------------------------------------------------------------------
// Document structure
// ---------------------------------------------------------------------------

/// The opening tag of the transformed SVG, sized to the page image, and a
/// line feed.
pub open spec fn svg_header_spec(width: u32, height: u32) -> Seq<char> {
    "<svg xmlns=\"http://www.w3.org/2000/svg\" width=\""@ + decimal(width as nat)
        + "\" height=\""@ + decimal(height as nat) + "\" viewBox=\"0 0 "@ + decimal(width as nat)
        + " "@ + decimal(height as nat) + "\">\n"@
}

/// The opening tag of the transformed SVG, sized to the page image.
pub fn svg_header(width: u32, height: u32) -> (r: String)
    ensures
        r@ == svg_header_spec(width, height),
{
    let w = decimal_chars(width as u64);
    let h = decimal_chars(height as u64);
    let mut v = chars_of("<svg xmlns=\"http://www.w3.org/2000/svg\" width=\"");
    extend_chars(&mut v, &w);
    extend_str(&mut v, "\" height=\"");
    extend_chars(&mut v, &h);
    extend_str(&mut v, "\" viewBox=\"0 0 ");
    extend_chars(&mut v, &w);
    extend_str(&mut v, " ");
    extend_chars(&mut v, &h);
    extend_str(&mut v, "\">\n");
    string_of(&v)
}

/// How a line of an SVG drawing is treated when the drawing is moved to
/// page-image coordinates.
#[derive(Debug, Clone, Copy, PartialEq, Eq, Structural)]
pub enum ElementKind {
    /// A `<polyline>` or `<polygon>`: its points move.
    Polyline,
    /// A `<line>`: its end points move.
    Line,
    /// A `<circle>`: its centre moves and its radius scales.
    Circle,
    /// A `<path>`: its path data moves.
    Path,
    /// Anything else is kept as it is.
    Other,
}

/// A (trimmed) line of an SVG drawing and how it is treated.
pub struct SvgElement {
    pub kind: ElementKind,
    pub text: String,
}

/// `s` holds `pat`.
pub open spec fn contains(s: Seq<char>, pat: Seq<char>) -> bool {
    find(s, pat) is Some
}

/// A line that belongs to the SVG header or closing tag (dropped, since the
/// transformed drawing gets its own).
pub open spec fn is_svg_frame(t: Seq<char>) -> bool {
    starts_with(t, "<svg"@) || starts_with(t, "</svg"@) || starts_with(t, "<?xml"@)
}

/// How a trimmed line of an SVG drawing is treated.
pub open spec fn element_kind_spec(t: Seq<char>) -> ElementKind {
    if contains(t, "<polyline"@) || contains(t, "<polygon"@) {
        ElementKind::Polyline
    } else if contains(t, "<line"@) {
        ElementKind::Line
    } else if contains(t, "<circle"@) {
        ElementKind::Circle
    } else if contains(t, "<path"@) {
        ElementKind::Path
    } else {
        ElementKind::Other
    }
}

/// The elements of an SVG drawing: each line trimmed, without the frame
/// lines, with its kind.
pub open spec fn svg_elements_spec(lines: Seq<Seq<char>>) -> Seq<(ElementKind, Seq<char>)>
    decreases lines.len(),
{
    if lines.len() == 0 {
        seq![]
    } else {
        let prev = svg_elements_spec(lines.drop_last());
        let t = trim(lines.last());
        if is_svg_frame(t) {
            prev
        } else {
            prev.push((element_kind_spec(t), t))
        }
    }
}

fn contains_exec(v: &Vec<char>, pat: &str) -> (b: bool)
    ensures
        b == contains(v@, pat@),
{
    let p = chars_of(pat);
    assert(v@.skip(0) =~= v@);
    find_from(v, 0, &p).is_some()
}

/// The elements of an SVG drawing, in order.
pub fn svg_elements(raw_svg: &str) -> (r: Vec<SvgElement>)
    ensures
        r@.map_values(|e: SvgElement| (e.kind, e.text@)) == svg_elements_spec(lines_of(raw_svg@)),
{
    let v = chars_of(raw_svg);
    let lines = split_lines(&v);
    let ghost ls = lines@.map_values(|l: Vec<char>| l@);
    let mut r: Vec<SvgElement> = Vec::new();
    let mut k: usize = 0;
    assert(ls.take(0) =~= Seq::<Seq<char>>::empty());
    while k < lines.len()
        invariant
            k <= lines.len(),
            ls == lines@.map_values(|l: Vec<char>| l@),
            ls == lines_of(raw_svg@),
            r@.map_values(|e: SvgElement| (e.kind, e.text@)) == svg_elements_spec(
                ls.take(k as int),
            ),
        decreases lines.len() - k,
    {
        assert(ls.take(k + 1).drop_last() =~= ls.take(k as int));
        assert(ls.take(k + 1).last() == lines[k as int]@);
        let line = &lines[k];
        let (a, b) = trim_bounds(line);
        let t = copy_range(line, a, b);
        if !(has_prefix(&t, "<svg") || has_prefix(&t, "</svg") || has_prefix(&t, "<?xml")) {
            let kind = if contains_exec(&t, "<polyline") || contains_exec(&t, "<polygon") {
                ElementKind::Polyline
            } else if contains_exec(&t, "<line") {
                ElementKind::Line
            } else if contains_exec(&t, "<circle") {
                ElementKind::Circle
            } else if contains_exec(&t, "<path") {
                ElementKind::Path
            } else {
                ElementKind::Other
            };
            let ghost before = r@.map_values(|e: SvgElement| (e.kind, e.text@));
            r.push(SvgElement { kind, text: string_of(&t) });
            assert(r@.map_values(|e: SvgElement| (e.kind, e.text@)) =~= before.push((kind, t@)));
        }
        k += 1;
    }
    assert(ls.take(lines.len() as int) =~= ls);
    r
}

// ---------------------------------------------------------------------------
// Coordinates
// ---------------------------------------------------------------------------

/// The two halves of a word of the form `x,y` (exactly one comma).
pub open spec fn coordinate_pair(w: Seq<char>) -> Option<(Seq<char>, Seq<char>)> {
    match find(w, seq![',']) {
        Some(k) => {
            let rest = w.skip(k + 1 as int);
            if find(rest, seq![',']) is None {
                Some((w.take(k as int), rest))
            } else {
                None
            }
        },
        None => None,
    }
}

/// The coordinate pairs among the words `ws`, in order.
pub open spec fn coordinate_pairs_spec(ws: Seq<Seq<char>>) -> Seq<(Seq<char>, Seq<char>)>
    decreases ws.len(),
{
    if ws.len() == 0 {
        seq![]
    } else {
        match coordinate_pair(ws.last()) {
            Some(p) => coordinate_pairs_spec(ws.drop_last()).push(p),
            None => coordinate_pairs_spec(ws.drop_last()),
        }
    }
}

/// The `x,y` pairs of a `points` attribute: its whitespace-separated words
/// that hold exactly one comma, split at the comma.
pub fn coordinate_pairs(points: &str) -> (r: Vec<(String, String)>)
    ensures
        r@.map_values(|p: (String, String)| (p.0@, p.1@)) == coordinate_pairs_spec(
            words(points@),
        ),
{
    let v = chars_of(points);
    let ws = split_words(&v);
    let ghost wv = ws@.map_values(|w: Vec<char>| w@);
    let comma = vec![','];
    let mut r: Vec<(String, String)> = Vec::new();
    let mut k: usize = 0;
    assert(wv.take(0) =~= Seq::<Seq<char>>::empty());
    while k < ws.len()
        invariant
            k <= ws.len(),
            comma@ == seq![','],
            wv == ws@.map_values(|w: Vec<char>| w@),
            wv == words(points@),
            r@.map_values(|p: (String, String)| (p.0@, p.1@)) == coordinate_pairs_spec(
                wv.take(k as int),
            ),
        decreases ws.len() - k,
    {
        assert(wv.take(k + 1).drop_last() =~= wv.take(k as int));
        assert(wv.take(k + 1).last() == ws[k as int]@);
        let w = &ws[k];
        assert(w@.skip(0) =~= w@);
        if let Some(c) = find_from(w, 0, &comma) {
            proof {
                lemma_find(w@, seq![',']);
            }
            if find_from(w, c + 1, &comma).is_none() {
                let x = copy_range(w, 0, c);
                let y = copy_range(w, c + 1, w.len());
                assert(x@ =~= w@.take(c as int));
                assert(y@ =~= w@.skip(c + 1));
                let ghost before = r@.map_values(|p: (String, String)| (p.0@, p.1@));
                r.push((string_of(&x), string_of(&y)));
                assert(r@.map_values(|p: (String, String)| (p.0@, p.1@)) =~= before.push(
                    (x@, y@),
                ));
            }
        }
        k += 1;
    }
    assert(wv.take(ws.len() as int) =~= wv);
    r
}

// ---------------------------------------------------------------------------
// Stroke width inside a style attribute
// ---------------------------------------------------------------------------

/// A character that may continue a stroke width number (ASCII digit or `.`).
pub open spec fn is_number_char(c: char) -> bool {
    ('0' <= c && c <= '9') || c == '.'
}

/// The number of leading digits and dots of `s`.
pub open spec fn number_prefix(s: Seq<char>) -> nat
    decreases s.len(),
{
    if s.len() > 0 && is_number_char(s[0]) {
        1 + number_prefix(s.drop_first())
    } else {
        0
    }
}

/// The parts of a style attribute value around its first `stroke-width:`
/// declaration: what precedes it, the number after it (leading whitespace
/// skipped; digits and dots), and what follows the number.
pub open spec fn style_stroke_width_spec(style: Seq<char>) -> Option<
    (Seq<char>, Seq<char>, Seq<char>),
> {
    let pat = "stroke-width:"@;
    match find(style, pat) {
        Some(k) => {
            let after = trim_start(style.skip(k + pat.len() as int));
            let n = number_prefix(after);
            Some((style.take(k as int), after.take(n as int), after.skip(n as int)))
        },
        None => None,
    }
}

/// The number of digits and dots at the start of `v[lo..]`.
fn number_prefix_from(v: &Vec<char>, lo: usize) -> (n: usize)
    requires
        lo <= v.len(),
    ensures
        n == number_prefix(v@.skip(lo as int)),
        lo + n <= v.len(),
{
    let mut i: usize = lo;
    while i < v.len() && (('0' <= v[i] && v[i] <= '9') || v[i] == '.')
        invariant
            lo <= i <= v.len(),
            number_prefix(v@.skip(lo as int)) == (i - lo) + number_prefix(v@.skip(i as int)),
        decreases v.len() - i,
    {
        assert(v@.skip(i as int).drop_first() =~= v@.skip(i + 1));
        i += 1;
    }
    i - lo
}

/// The parts of a style attribute value around its `stroke-width:`
/// declaration: prefix, number text, suffix.
#[verifier::spinoff_prover]
pub fn style_stroke_width(style: &str) -> (r: Option<(String, String, String)>)
    ensures
        match r {
            Some((p, n, s)) => style_stroke_width_spec(style@) == Some((p@, n@, s@)),
            None => style_stroke_width_spec(style@) is None,
        },
{
    let v = chars_of(style);
    let pat = chars_of("stroke-width:");
    assert(v@.skip(0) =~= v@);
    match find_from(&v, 0, &pat) {
        None => None,
        Some(k) => {
            proof {
                lemma_find(v@, pat@);
            }
            let start = k + pat.len();
            let a = start + ws_prefix_from(&v, start);
            let ghost after = v@.skip(a as int);
            assert(trim_start(v@.skip(start as int)) =~= after);
            let i = a + number_prefix_from(&v, a);
            assert(after.skip(0) =~= after);
            let p = copy_range(&v, 0, k);
            let n = copy_range(&v, a, i);
            let s = copy_range(&v, i, v.len());
            assert(p@ =~= v@.take(k as int));
            assert(n@ =~= after.take(i - a));
            assert(s@ =~= after.skip(i - a));
            Some((string_of(&p), string_of(&n), string_of(&s)))
        },
    }
}

} // verus!

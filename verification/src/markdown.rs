use vstd::prelude::*;
use vstd::string::StrSliceExecFns;

use crate::text::{
    chars_of, copy_range, extend_chars, extend_str, find, find_from, has_prefix_at, is_digit,
    lemma_find, lemma_find_is, lemma_ws_prefix_bound, starts_with, string_of, trim_start, ws_prefix_count,
};

verus! {

// ---------------------------------------------------------------------------
// Escaping
// ---------------------------------------------------------------------------

/// What one character becomes in Typst markup: the characters with a special
/// meaning (`\`, `#`, `$`, `@`) get a backslash in front.
pub open spec fn escape_char(c: char) -> Seq<char> {
    if c == '\\' {
        seq!['\\', '\\']
    } else if c == '#' {
        seq!['\\', '#']
    } else if c == '$' {
        seq!['\\', '$']
    } else if c == '@' {
        seq!['\\', '@']
    } else {
        seq![c]
    }
}

/// `s` with every special Typst character escaped.
pub open spec fn escape_spec(s: Seq<char>) -> Seq<char>
    decreases s.len(),
{
    if s.len() == 0 {
        seq![]
    } else {
        escape_spec(s.drop_last()) + escape_char(s.last())
    }
}

pub fn escape_chars(v: &Vec<char>) -> (r: Vec<char>)
    ensures
        r@ == escape_spec(v@),
{
    let mut r: Vec<char> = Vec::new();
    let mut i: usize = 0;
    while i < v.len()
        invariant
            i <= v.len(),
            r@ == escape_spec(v@.take(i as int)),
        decreases v.len() - i,
    {
        let c = v[i];
        if c == '\\' || c == '#' || c == '$' || c == '@' {
            r.push('\\');
        }
        r.push(c);
        assert(v@.take(i + 1).drop_last() =~= v@.take(i as int));
        assert(r@ =~= escape_spec(v@.take(i as int)) + escape_char(c));
        i += 1;
    }
    assert(v@.take(v.len() as int) =~= v@);
    r
}

/// Escape characters that have special meaning in Typst.
pub fn escape_typst(text: &str) -> (r: String)
    ensures
        r@ == escape_spec(text@),
{
    let v = chars_of(text);
    let e = escape_chars(&v);
    string_of(&e)
}

/// How Typst reads escaped text: a backslash makes the character after it
/// literal.
pub open spec fn typst_literal(s: Seq<char>) -> Seq<char>
    decreases s.len(),
{
    if s.len() == 0 {
        seq![]
    } else if s[0] == '\\' && s.len() >= 2 {
        seq![s[1]] + typst_literal(s.skip(2))
    } else {
        seq![s[0]] + typst_literal(s.skip(1))
    }
}

proof fn lemma_escape_prepend(c: char, s: Seq<char>)
    ensures
        escape_spec(seq![c] + s) == escape_char(c) + escape_spec(s),
    decreases s.len(),
{
    if s.len() == 0 {
        assert(seq![c] + s =~= seq![c]);
        assert((seq![c] + s).drop_last() =~= Seq::<char>::empty());
        assert(escape_spec(seq![c]) =~= escape_spec(Seq::<char>::empty()) + escape_char(c));
        assert(escape_char(c) + escape_spec(s) =~= escape_char(c));
    } else {
        let t = seq![c] + s;
        assert(t.drop_last() =~= seq![c] + s.drop_last());
        assert(t.last() == s.last());
        lemma_escape_prepend(c, s.drop_last());
        assert(escape_spec(t) == escape_spec(t.drop_last()) + escape_char(t.last()));
        assert(escape_char(c) + escape_spec(s.drop_last()) + escape_char(s.last()) =~= escape_char(
            c,
        ) + escape_spec(s));
    }
}

/// Escaping loses nothing: Typst reads the escaped text back as the
/// original text.
pub proof fn lemma_escape_read_back(s: Seq<char>)
    ensures
        typst_literal(escape_spec(s)) == s,
    decreases s.len(),
{
    if s.len() > 0 {
        let c = s[0];
        let rest = s.skip(1);
        assert(s =~= seq![c] + rest);
        lemma_escape_prepend(c, rest);
        lemma_escape_read_back(rest);
        let e = escape_char(c) + escape_spec(rest);
        if c == '\\' || c == '#' || c == '$' || c == '@' {
            assert(e.skip(2) =~= escape_spec(rest));
        } else {
            assert(e.skip(1) =~= escape_spec(rest));
        }
        assert(typst_literal(e) =~= seq![c] + rest);
    }
}

/// Every character with a special meaning in Typst markup (`\\`, `#`,
/// `$`, `@`) stands escaped: Typst reads none of them as markup.
pub open spec fn escaped_ok(s: Seq<char>) -> bool
    decreases s.len(),
{
    if s.len() == 0 {
        true
    } else if s[0] == '\\' && s.len() >= 2 {
        escaped_ok(s.skip(2))
    } else {
        s[0] != '\\' && s[0] != '#' && s[0] != '$' && s[0] != '@' && escaped_ok(s.skip(1))
    }
}

/// Escaped text has every special character escaped.
pub proof fn lemma_escape_escaped_ok(s: Seq<char>)
    ensures
        escaped_ok(escape_spec(s)),
    decreases s.len(),
{
    if s.len() > 0 {
        let c = s[0];
        let rest = s.skip(1);
        assert(s =~= seq![c] + rest);
        lemma_escape_prepend(c, rest);
        lemma_escape_escaped_ok(rest);
        let e = escape_char(c) + escape_spec(rest);
        if c == '\\' || c == '#' || c == '$' || c == '@' {
            assert(e.skip(2) =~= escape_spec(rest));
        } else {
            assert(e.skip(1) =~= escape_spec(rest));
        }
    }
}

/// Escaping adds no star to a text without one.
pub proof fn lemma_escape_no_star(s: Seq<char>)
    requires
        forall|i: int| 0 <= i < s.len() ==> s[i] != '*',
    ensures
        forall|i: int| 0 <= i < escape_spec(s).len() ==> escape_spec(s)[i] != '*',
    decreases s.len(),
{
    if s.len() > 0 {
        lemma_escape_no_star(s.drop_last());
        let a = escape_spec(s.drop_last());
        let b = escape_char(s.last());
        assert forall|i: int| 0 <= i < (a + b).len() implies (a + b)[i] != '*' by {
            if i >= a.len() {
                assert((a + b)[i] == b[i - a.len()]);
            } else {
                assert((a + b)[i] == a[i]);
            }
        }
    }
}

// ---------------------------------------------------------------------------
// Paired markers
// ---------------------------------------------------------------------------

/// `s` with every occurrence of the non-empty pattern `p`, taken from the left
/// and without overlap, replaced by `r`.
pub open spec fn replace_all(s: Seq<char>, p: Seq<char>, r: Seq<char>) -> Seq<char>
    decreases s.len(),
{
    if s.len() == 0 {
        seq![]
    } else if p.len() > 0 && starts_with(s, p) {
        r + replace_all(s.skip(p.len() as int), p, r)
    } else {
        seq![s[0]] + replace_all(s.drop_first(), p, r)
    }
}

/// The number of occurrences of the non-empty pattern `p` in `s`, taken from
/// the left and without overlap.
pub open spec fn count_matches(s: Seq<char>, p: Seq<char>) -> nat
    decreases s.len(),
{
    if s.len() == 0 {
        0
    } else if p.len() > 0 && starts_with(s, p) {
        1 + count_matches(s.skip(p.len() as int), p)
    } else {
        count_matches(s.drop_first(), p)
    }
}

/// `r` after every character of `s`.
pub open spec fn interleave(s: Seq<char>, r: Seq<char>) -> Seq<char>
    decreases s.len(),
{
    if s.len() == 0 {
        seq![]
    } else {
        interleave(s.drop_last(), r) + seq![s.last()] + r
    }
}

/// The text that `s.split(p)` joined with `r` gives, when the split yields at
/// least three pieces; `s` itself otherwise. With an empty pattern the split
/// yields an empty piece, each character, and an empty piece.
pub open spec fn paired_spec(s: Seq<char>, p: Seq<char>, r: Seq<char>) -> Seq<char> {
    if p.len() == 0 {
        if s.len() == 0 {
            s
        } else {
            r + interleave(s, r)
        }
    } else if count_matches(s, p) < 2 {
        s
    } else {
        replace_all(s, p, r)
    }
}

pub proof fn lemma_count_bound(s: Seq<char>, p: Seq<char>)
    ensures
        count_matches(s, p) <= s.len(),
    decreases s.len(),
{
    if s.len() == 0 {
    } else if p.len() > 0 && starts_with(s, p) {
        lemma_count_bound(s.skip(p.len() as int), p);
    } else {
        lemma_count_bound(s.drop_first(), p);
    }
}

fn replace_and_count(v: &Vec<char>, p: &Vec<char>, r: &Vec<char>) -> (res: (Vec<char>, usize))
    requires
        p.len() > 0,
    ensures
        res.0@ == replace_all(v@, p@, r@),
        res.1 == count_matches(v@, p@),
{
    let mut out: Vec<char> = Vec::new();
    let mut count: usize = 0;
    let mut i: usize = 0;
    assert(v@.skip(0) =~= v@);
    proof {
        lemma_count_bound(v@, p@);
    }
    while i < v.len()
        invariant
            p.len() > 0,
            i <= v.len(),
            count <= i,
            replace_all(v@, p@, r@) == out@ + replace_all(v@.skip(i as int), p@, r@),
            count_matches(v@, p@) == count + count_matches(v@.skip(i as int), p@),
        decreases v.len() - i,
    {
        let ghost s = v@.skip(i as int);
        let ghost before = out@;
        if has_prefix_at(v, i, p) {
            assert(s.skip(p.len() as int) =~= v@.skip(i + p.len()));
            extend_chars(&mut out, r);
            assert(before + (r@ + replace_all(s.skip(p.len() as int), p@, r@)) =~= out@
                + replace_all(s.skip(p.len() as int), p@, r@));
            count += 1;
            i += p.len();
        } else {
            assert(s.drop_first() =~= v@.skip(i + 1));
            out.push(v[i]);
            assert(before + (seq![s[0]] + replace_all(s.drop_first(), p@, r@)) =~= out@
                + replace_all(s.drop_first(), p@, r@));
            i += 1;
        }
    }
    assert(v@.skip(i as int) =~= Seq::<char>::empty());
    assert(out@ + Seq::<char>::empty() =~= out@);
    (out, count)
}

fn interleave_chars(v: &Vec<char>, r: &Vec<char>) -> (res: Vec<char>)
    ensures
        res@ == interleave(v@, r@),
{
    let mut out: Vec<char> = Vec::new();
    let mut i: usize = 0;
    while i < v.len()
        invariant
            i <= v.len(),
            out@ == interleave(v@.take(i as int), r@),
        decreases v.len() - i,
    {
        out.push(v[i]);
        extend_chars(&mut out, r);
        assert(v@.take(i + 1).drop_last() =~= v@.take(i as int));
        assert(out@ =~= interleave(v@.take(i as int), r@) + seq![v@[i as int]] + r@);
        i += 1;
    }
    assert(v@.take(v.len() as int) =~= v@);
    out
}

pub fn paired_chars(v: &Vec<char>, p: &Vec<char>, r: &Vec<char>) -> (res: Vec<char>)
    ensures
        res@ == paired_spec(v@, p@, r@),
{
    if p.len() == 0 {
        if v.len() == 0 {
            return copy_range(v, 0, 0);
        }
        let mut out = copy_range(r, 0, r.len());
        let rest = interleave_chars(v, r);
        extend_chars(&mut out, &rest);
        assert(r@.subrange(0, r.len() as int) =~= r@);
        return out;
    }
    let (replaced, count) = replace_and_count(v, p, r);
    if count < 2 {
        let out = copy_range(v, 0, v.len());
        assert(v@.subrange(0, v.len() as int) =~= v@);
        out
    } else {
        replaced
    }
}

/// Convert paired markdown markers (such as `**`) to their Typst equivalents.
pub fn convert_paired_marker(text: &str, md_marker: &str, typst_marker: &str) -> (r: String)
    ensures
        r@ == paired_spec(text@, md_marker@, typst_marker@),
{
    let v = chars_of(text);
    let p = chars_of(md_marker);
    let t = chars_of(typst_marker);
    let o = paired_chars(&v, &p, &t);
    string_of(&o)
}

// ---------------------------------------------------------------------------
// Links
// ---------------------------------------------------------------------------

/// The Typst form of a markdown link.
pub open spec fn link_markup(url: Seq<char>, text: Seq<char>) -> Seq<char> {
    "#link(\""@ + url + "\")["@ + text + "]"@
}

/// The Typst link for a markdown link that starts `t` (at its opening
/// bracket), with the number of characters the markdown link takes: the link
/// text runs to the first `]`, which must be followed by `(`; the URL runs
/// from there to the next `)`.
pub open spec fn link_at(t: Seq<char>) -> Option<(Seq<char>, nat)> {
    match find(t, seq![']']) {
        Some(m) => if m + 1 < t.len() && t[m + 1int] == '(' {
            let u = t.skip(m + 2 as int);
            match find(u, seq![')']) {
                Some(e) => Some(
                    (link_markup(u.take(e as int), t.subrange(1, m as int)), m + 2 + e + 1),
                ),
                None => None,
            }
        } else {
            None
        },
        None => None,
    }
}

pub proof fn lemma_link_at(t: Seq<char>)
    ensures
        link_at(t) matches Some((mk, n)) ==> 0 < n <= t.len(),
{
    lemma_find(t, seq![']']);
    if let Some(m) = find(t, seq![']']) {
        if m + 1 < t.len() {
            lemma_find(t.skip(m + 2 as int), seq![')']);
        }
    }
}

/// `s` with each markdown link `[text](url)` turned into a Typst link.
/// An opening bracket that starts no complete link is kept as it is.
pub open spec fn links_spec(s: Seq<char>) -> Seq<char>
    decreases s.len(),
{
    match find(s, seq!['[']) {
        None => s,
        Some(a) => {
            proof {
                lemma_find(s, seq!['[']);
                lemma_link_at(s.skip(a as int));
            }
            let t = s.skip(a as int);
            s.take(a as int) + match link_at(t) {
                Some((mk, n)) => mk + links_spec(t.skip(n as int)),
                None => seq!['['] + links_spec(t.skip(1)),
            }
        },
    }
}

/// The first occurrence of the character `c` in `s` is at `k`.
proof fn lemma_first_char(s: Seq<char>, c: char, k: int)
    requires
        0 <= k < s.len(),
        s[k] == c,
        forall|j: int| 0 <= j < k ==> s[j] != c,
    ensures
        find(s, seq![c]) == Some(k as nat),
{
    assert forall|j: int| 0 <= j < k implies !starts_with(#[trigger] s.skip(j), seq![c]) by {
        if starts_with(s.skip(j), seq![c]) {
            assert(s.skip(j).take(1)[0] == s[j]);
        }
    }
    assert(s.skip(k).take(1) =~= seq![c]);
    lemma_find_is(s, seq![c], k);
}

/// Link conversion goes through the text link by link: text before a
/// complete markdown link `[t](u)` (with no `[` in it) is kept, the link
/// becomes a Typst link, and conversion goes on after it. So every complete
/// link is converted, not only the first.
pub proof fn lemma_links_distribute(x: Seq<char>, t: Seq<char>, u: Seq<char>, y: Seq<char>)
    requires
        forall|i: int| 0 <= i < x.len() ==> x[i] != '[',
        forall|i: int| 0 <= i < t.len() ==> t[i] != ']',
        forall|i: int| 0 <= i < u.len() ==> u[i] != ')',
    ensures
        links_spec(x + (seq!['['] + t + seq![']', '('] + u + seq![')']) + y) == x + link_markup(u, t)
            + links_spec(y),
{
    let l = seq!['['] + t + seq![']', '('] + u + seq![')'];
    let s = x + l + y;
    assert(s[x.len() as int] == '[');
    assert forall|j: int| 0 <= j < x.len() implies s[j] != '[' by {
        assert(s[j] == x[j]);
    }
    lemma_first_char(s, '[', x.len() as int);
    let tt = s.skip(x.len() as int);
    assert(tt =~= l + y);
    assert(s.take(x.len() as int) =~= x);
    let m: int = t.len() + 1int;
    assert(tt[m] == ']');
    assert forall|j: int| 0 <= j < m implies tt[j] != ']' by {
        if j > 0 {
            assert(tt[j] == t[j - 1]);
        }
    }
    lemma_first_char(tt, ']', m);
    assert(tt[m + 1] == '(');
    let uu = tt.skip(m + 2);
    assert(uu =~= u + seq![')'] + y);
    assert(uu[u.len() as int] == ')');
    assert forall|j: int| 0 <= j < u.len() implies uu[j] != ')' by {
        assert(uu[j] == u[j]);
    }
    lemma_first_char(uu, ')', u.len() as int);
    assert(uu.take(u.len() as int) =~= u);
    assert(tt.subrange(1, m) =~= t);
    assert(tt.skip(l.len() as int) =~= y);
    assert(link_at(tt) == Some((link_markup(u, t), l.len())));
}

/// The Typst link for a markdown link that starts at `v[a]`, and the
/// position just after it.
fn link_at_exec(v: &Vec<char>, a: usize) -> (r: Option<(Vec<char>, usize)>)
    requires
        a < v.len(),
        v@[a as int] == '[',
    ensures
        match r {
            Some((mk, end)) => a < end <= v.len() && link_at(v@.skip(a as int)) == Some(
                (mk@, (end - a) as nat),
            ),
            None => link_at(v@.skip(a as int)) is None,
        },
{
    let rb = vec![']'];
    let rp = vec![')'];
    let ghost t = v@.skip(a as int);
    match find_from(v, a, &rb) {
        None => {
            assert(rb@ == seq![']']);
            assert(link_at(t) is None);
            None
        },
        Some(m) => {
            proof {
                lemma_find(t, seq![']']);
                assert(rb@ == seq![']']);
                assert(t.skip(m - a).take(1)[0] == ']');
                assert(t[0] == '[');
            }
            assert(find(t, seq![']']) == Some((m - a) as nat));
            if m + 1 >= v.len() || v[m + 1] != '(' {
                assert(link_at(t) is None);
                return None;
            }
            assert(t[m - a + 1] == '(');
            let ghost u = v@.skip(m + 2);
            assert(t.skip(m - a + 2) =~= u);
            match find_from(v, m + 2, &rp) {
                None => {
                    assert(rp@ == seq![')']);
                    assert(t.skip((m - a) as nat + 2 as int) == u);
                    assert(link_at(t) is None);
                    None
                },
                Some(e) => {
                    proof {
                        lemma_find(u, seq![')']);
                    }
                    assert(rp@ == seq![')']);
                    assert(m + 2 <= e);
                    assert(find(u, seq![')']) == Some((e - (m + 2)) as nat));
                    assert(e < v.len());
                    assert(a + 1 <= m);
                    let url = copy_range(v, m + 2, e);
                    let text = copy_range(v, a + 1, m);
                    assert(url@ =~= u.take(e - (m + 2)));
                    assert(text@ =~= t.subrange(1, m - a));
                    let mut mk: Vec<char> = Vec::new();
                    extend_str(&mut mk, "#link(\"");
                    extend_chars(&mut mk, &url);
                    extend_str(&mut mk, "\")[");
                    extend_chars(&mut mk, &text);
                    extend_str(&mut mk, "]");
                    assert(mk@ =~= link_markup(url@, text@));
                    assert(t.skip((m - a) as nat + 2 as int) == u);
                    assert(link_at(t) == Some((mk@, (e + 1 - a) as nat)));
                    Some((mk, e + 1))
                },
            }
        },
    }
}

pub fn links_chars(v: &Vec<char>) -> (r: Vec<char>)
    ensures
        r@ == links_spec(v@),
{
    let lb = vec!['['];
    let mut out: Vec<char> = Vec::new();
    let mut pos: usize = 0;
    assert(v@.skip(0) =~= v@);
    assert(out@ + links_spec(v@) =~= links_spec(v@));
    loop
        invariant
            pos <= v.len(),
            lb@ == seq!['['],
            links_spec(v@) == out@ + links_spec(v@.skip(pos as int)),
        decreases v.len() - pos,
    {
        let ghost s = v@.skip(pos as int);
        let ghost before = out@;
        match find_from(v, pos, &lb) {
            None => {
                let rest = copy_range(v, pos, v.len());
                assert(rest@ =~= s);
                extend_chars(&mut out, &rest);
                return out;
            },
            Some(a) => {
                proof {
                    lemma_find(s, seq!['[']);
                }
                let ghost t = v@.skip(a as int);
                assert(s.skip(a - pos) =~= t);
                let pre = copy_range(v, pos, a);
                assert(pre@ =~= s.take(a - pos));
                extend_chars(&mut out, &pre);
                assert(s.skip(a - pos).take(1)[0] == '[');
                match link_at_exec(v, a) {
                    Some((mk, end)) => {
                        extend_chars(&mut out, &mk);
                        assert(t.skip(end - a) =~= v@.skip(end as int));
                        assert(before + (s.take(a - pos) + (mk@ + links_spec(t.skip(end - a))))
                            =~= out@ + links_spec(v@.skip(end as int)));
                        pos = end;
                    },
                    None => {
                        out.push('[');
                        assert(t.skip(1) =~= v@.skip(a + 1));
                        assert(before + (s.take(a - pos) + (seq!['['] + links_spec(t.skip(1))))
                            =~= out@ + links_spec(v@.skip(a + 1)));
                        pos = a + 1;
                    },
                }
            },
        }
    }
}

/// Convert markdown links `[text](url)` to Typst links.
pub fn convert_links(text: &str) -> (r: String)
    ensures
        r@ == links_spec(text@),
{
    let v = chars_of(text);
    let o = links_chars(&v);
    string_of(&o)
}

// ---------------------------------------------------------------------------
// Inline formatting
// ---------------------------------------------------------------------------

/// The pieces of `s` between the occurrences of the non-empty pattern `p`,
/// taken from the left and without overlap (what `str::split` yields).
pub open spec fn split_pieces(s: Seq<char>, p: Seq<char>) -> Seq<Seq<char>>
    decreases s.len(),
{
    if p.len() == 0 {
        seq![s]
    } else {
        match find(s, p) {
            None => seq![s],
            Some(k) => {
                proof {
                    lemma_find(s, p);
                }
                seq![s.take(k as int)] + split_pieces(s.skip(k + p.len() as int), p)
            },
        }
    }
}

/// The pieces joined, with `r` between each two.
pub open spec fn join_pieces(ps: Seq<Seq<char>>, r: Seq<char>) -> Seq<char>
    decreases ps.len(),
{
    if ps.len() == 0 {
        seq![]
    } else if ps.len() == 1 {
        ps[0]
    } else {
        join_pieces(ps.drop_last(), r) + r + ps.last()
    }
}

/// Italic markers `*x*` converted to Typst `_x_`.
pub open spec fn italic_spec(s: Seq<char>) -> Seq<char> {
    paired_spec(s, "*"@, "_"@)
}

/// The number of single-star markers in the pieces between bold markers.
pub open spec fn star_total(parts: Seq<Seq<char>>) -> nat
    decreases parts.len(),
{
    if parts.len() == 0 {
        0
    } else {
        star_total(parts.drop_last()) + count_matches(parts.last(), "*"@)
    }
}

/// Bold and italic markers converted to Typst. When `**` pairs up, bold
/// `**x**` becomes strong `*x*`, and the single stars left over (across the
/// whole text) are italic markers: where there are at least two, each
/// becomes `_`. When `**` does not pair up, only italic is converted.
pub open spec fn typst_emphasis_spec(s: Seq<char>) -> Seq<char> {
    let parts = split_pieces(s, "**"@);
    if parts.len() < 3 {
        italic_spec(s)
    } else if star_total(parts) >= 2 {
        join_pieces(parts.map_values(|t: Seq<char>| replace_all(t, "*"@, "_"@)), "*"@)
    } else {
        join_pieces(parts, "*"@)
    }
}

proof fn lemma_no_star_matches(e: Seq<char>, p: Seq<char>)
    requires
        p.len() > 0,
        p[0] == '*',
        forall|i: int| 0 <= i < e.len() ==> e[i] != '*',
    ensures
        count_matches(e, p) == 0,
        find(e, p) is None,
    decreases e.len(),
{
    if e.len() > 0 {
        assert(!starts_with(e, p)) by {
            if starts_with(e, p) {
                assert(e.take(p.len() as int)[0] == e[0]);
            }
        }
        lemma_no_star_matches(e.drop_first(), p);
    } else {
        assert(!starts_with(e, p));
    }
}

/// Text with no star has no bold or italic marker: converting emphasis
/// leaves it as it is.
pub proof fn lemma_emphasis_no_star(e: Seq<char>)
    requires
        forall|i: int| 0 <= i < e.len() ==> e[i] != '*',
    ensures
        typst_emphasis_spec(e) == e,
{
    reveal_strlit("**");
    reveal_strlit("*");
    lemma_no_star_matches(e, "**"@);
    lemma_no_star_matches(e, "*"@);
    assert(split_pieces(e, "**"@) == seq![e]);
}

/// Escaping, then bold and italic, then links.
pub open spec fn inline_spec(s: Seq<char>) -> Seq<char> {
    links_spec(typst_emphasis_spec(escape_spec(s)))
}

/// The pieces of `v` between the occurrences of `p`.
fn split_chars(v: &Vec<char>, p: &Vec<char>) -> (r: Vec<Vec<char>>)
    requires
        p.len() > 0,
    ensures
        r@.map_values(|x: Vec<char>| x@) == split_pieces(v@, p@),
{
    let mut parts: Vec<Vec<char>> = Vec::new();
    let mut pos: usize = 0;
    assert(v@.skip(0) =~= v@);
    loop
        invariant
            p.len() > 0,
            pos <= v.len(),
            split_pieces(v@, p@) == parts@.map_values(|x: Vec<char>| x@) + split_pieces(
                v@.skip(pos as int),
                p@,
            ),
        decreases v.len() - pos,
    {
        let ghost s = v@.skip(pos as int);
        let ghost pv = parts@.map_values(|x: Vec<char>| x@);
        match find_from(v, pos, p) {
            None => {
                let last = copy_range(v, pos, v.len());
                assert(last@ =~= s);
                parts.push(last);
                assert(parts@.map_values(|x: Vec<char>| x@) =~= pv + seq![s]);
                return parts;
            },
            Some(k) => {
                proof {
                    lemma_find(s, p@);
                }
                let piece = copy_range(v, pos, k);
                assert(piece@ =~= s.take(k - pos));
                assert(s.skip(k - pos + p.len()) =~= v@.skip(k + p.len()));
                parts.push(piece);
                assert(parts@.map_values(|x: Vec<char>| x@) =~= pv + seq![s.take(k - pos)]);
                assert(pv + split_pieces(s, p@) =~= parts@.map_values(|x: Vec<char>| x@)
                    + split_pieces(v@.skip(k + p.len()), p@));
                pos = k + p.len();
            },
        }
    }
}

/// The pieces joined, with `*` between each two.
fn join_star(ps: &Vec<Vec<char>>) -> (r: Vec<char>)
    ensures
        r@ == join_pieces(ps@.map_values(|x: Vec<char>| x@), "*"@),
{
    proof {
        reveal_strlit("*");
    }
    let ghost pv = ps@.map_values(|x: Vec<char>| x@);
    if ps.len() == 0 {
        return Vec::new();
    }
    let mut out: Vec<char> = copy_range(&ps[0], 0, ps[0].len());
    assert(out@ =~= pv[0]);
    let mut i: usize = 1;
    assert(pv.take(1) =~= seq![pv[0]]);
    while i < ps.len()
        invariant
            1 <= i <= ps.len(),
            pv == ps@.map_values(|x: Vec<char>| x@),
            "*"@ == seq!['*'],
            out@ == join_pieces(pv.take(i as int), "*"@),
        decreases ps.len() - i,
    {
        let ghost before = out@;
        out.push('*');
        extend_chars(&mut out, &ps[i]);
        assert(pv[i as int] == ps[i as int]@);
        assert(pv.take(i + 1).drop_last() =~= pv.take(i as int));
        assert(out@ =~= before + "*"@ + pv[i as int]);
        assert(join_pieces(pv.take(i + 1), "*"@) == join_pieces(pv.take(i as int), "*"@) + "*"@
            + pv[i as int]);
        i += 1;
    }
    assert(pv.take(ps.len() as int) =~= pv);
    out
}

pub fn emphasis_chars(v: &Vec<char>) -> (r: Vec<char>)
    ensures
        r@ == typst_emphasis_spec(v@),
{
    proof {
        reveal_strlit("**");
        reveal_strlit("*");
        reveal_strlit("_");
    }
    let bold = chars_of("**");
    let star = chars_of("*");
    let under = chars_of("_");
    let parts = split_chars(v, &bold);
    let ghost pv = parts@.map_values(|x: Vec<char>| x@);
    if parts.len() < 3 {
        return paired_chars(v, &star, &under);
    }
    let mut replaced: Vec<Vec<char>> = Vec::new();
    let mut acc: usize = 0;
    let mut i: usize = 0;
    while i < parts.len()
        invariant
            i <= parts.len(),
            pv == parts@.map_values(|x: Vec<char>| x@),
            star@ == "*"@,
            under@ == "_"@,
            star@.len() > 0,
            replaced@.map_values(|x: Vec<char>| x@) == pv.take(i as int).map_values(
                |t: Seq<char>| replace_all(t, "*"@, "_"@),
            ),
            acc == (if star_total(pv.take(i as int)) >= 2 {
                2
            } else {
                star_total(pv.take(i as int))
            }),
        decreases parts.len() - i,
    {
        let (rp, c) = replace_and_count(&parts[i], &star, &under);
        assert(pv[i as int] == parts[i as int]@);
        assert(pv.take(i + 1).drop_last() =~= pv.take(i as int));
        if c >= 2 || acc + c >= 2 {
            acc = 2;
        } else {
            acc = acc + c;
        }
        let ghost r0 = replaced@.map_values(|x: Vec<char>| x@);
        replaced.push(rp);
        assert(replaced@.map_values(|x: Vec<char>| x@) =~= r0.push(
            replace_all(pv[i as int], "*"@, "_"@),
        ));
        assert(pv.take(i + 1).map_values(|t: Seq<char>| replace_all(t, "*"@, "_"@)) =~= pv.take(
            i as int,
        ).map_values(|t: Seq<char>| replace_all(t, "*"@, "_"@)).push(
            replace_all(pv[i as int], "*"@, "_"@),
        ));
        i += 1;
    }
    assert(pv.take(parts.len() as int) =~= pv);
    if acc >= 2 {
        join_star(&replaced)
    } else {
        join_star(&parts)
    }
}

pub fn inline_chars(v: &Vec<char>) -> (r: Vec<char>)
    ensures
        r@ == inline_spec(v@),
{
    let e = escape_chars(v);
    let b = emphasis_chars(&e);
    links_chars(&b)
}

/// Minimal inline formatting for content inside Typst content blocks `[...]`:
/// bold and italic only.
pub fn convert_inline_formatting_typst(text: &str) -> (r: String)
    ensures
        r@ == typst_emphasis_spec(text@),
{
    let v = chars_of(text);
    let o = emphasis_chars(&v);
    string_of(&o)
}

/// Convert inline markdown formatting to Typst: escape special characters,
/// then bold `**x**` to `*x*`, italic `*x*` to `_x_`, and links.
pub fn convert_inline_formatting(text: &str) -> (r: String)
    ensures
        r@ == inline_spec(text@),
{
    let v = chars_of(text);
    let o = inline_chars(&v);
    string_of(&o)
}

// ---------------------------------------------------------------------------
// Ordered list items
// ---------------------------------------------------------------------------

/// The number of leading ASCII digits of `s`.
pub open spec fn digit_prefix(s: Seq<char>) -> nat
    decreases s.len(),
{
    if s.len() > 0 && is_digit(s[0]) {
        1 + digit_prefix(s.drop_first())
    } else {
        0
    }
}

/// What follows an ordered list prefix such as `12. ` (after leading
/// whitespace), if the line has one.
pub open spec fn ordered_item_spec(line: Seq<char>) -> Option<Seq<char>> {
    let t = trim_start(line);
    let d = digit_prefix(t);
    if d > 0 && d + 2 <= t.len() && t[d as int] == '.' && t[d + 1 as int] == ' ' {
        Some(t.skip(d + 2 as int))
    } else {
        None
    }
}

pub proof fn lemma_digit_prefix_bound(s: Seq<char>)
    ensures
        digit_prefix(s) <= s.len(),
    decreases s.len(),
{
    if s.len() > 0 && is_digit(s[0]) {
        lemma_digit_prefix_bound(s.drop_first());
    }
}

/// Where the item text starts, if `v` is an ordered list item.
pub fn ordered_item_start(v: &Vec<char>) -> (r: Option<usize>)
    ensures
        match r {
            Some(k) => k <= v.len() && ordered_item_spec(v@) == Some(v@.skip(k as int)),
            None => ordered_item_spec(v@) is None,
        },
{
    let a = ws_prefix_count(v);
    proof {
        lemma_ws_prefix_bound(v@);
    }
    let ghost t = trim_start(v@);
    assert(t =~= v@.skip(a as int));
    let mut i: usize = a;
    while i < v.len() && '0' <= v[i] && v[i] <= '9'
        invariant
            a <= i <= v.len(),
            t == v@.skip(a as int),
            digit_prefix(t) == (i - a) + digit_prefix(v@.skip(i as int)),
        decreases v.len() - i,
    {
        assert(v@.skip(i as int).drop_first() =~= v@.skip(i + 1));
        i += 1;
    }
    assert(t.skip(0) =~= t);
    if i > a && v.len() - i >= 2 && v[i] == '.' && v[i + 1] == ' ' {
        assert(t.skip(i - a + 2) =~= v@.skip(i + 2));
        Some(i + 2)
    } else {
        None
    }
}

/// Strip an ordered list prefix like `1. `, `2. `, etc.
pub fn strip_ordered_list_prefix(line: &str) -> (r: Option<&str>)
    ensures
        match r {
            Some(rest) => ordered_item_spec(line@) == Some(rest@),
            None => ordered_item_spec(line@) is None,
        },
{
    let v = chars_of(line);
    match ordered_item_start(&v) {
        Some(k) => {
            let rest = line.substring_char(k, v.len());
            assert(rest@ =~= v@.skip(k as int));
            Some(rest)
        },
        None => None,
    }
}

} // verus!

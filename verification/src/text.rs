use vstd::prelude::*;

verus! {

// ---------------------------------------------------------------------------
// Character classes
// ---------------------------------------------------------------------------

/// The characters with the Unicode `White_Space` property, which is the set
/// that `char::is_whitespace` (and so `str::trim`, `str::split_whitespace`)
/// treats as whitespace.
pub open spec fn is_ws(c: char) -> bool {
    ||| ('\u{9}' <= c && c <= '\u{d}')
    ||| c == ' '
    ||| c == '\u{85}'
    ||| c == '\u{a0}'
    ||| c == '\u{1680}'
    ||| ('\u{2000}' <= c && c <= '\u{200a}')
    ||| c == '\u{2028}'
    ||| c == '\u{2029}'
    ||| c == '\u{202f}'
    ||| c == '\u{205f}'
    ||| c == '\u{3000}'
}

/// Whether `c` is Unicode whitespace.
pub fn is_whitespace(c: char) -> (b: bool)
    ensures
        b == is_ws(c),
{
    ('\u{9}' <= c && c <= '\u{d}') || c == ' ' || c == '\u{85}' || c == '\u{a0}' || c
        == '\u{1680}' || ('\u{2000}' <= c && c <= '\u{200a}') || c == '\u{2028}' || c
        == '\u{2029}' || c == '\u{202f}' || c == '\u{205f}' || c == '\u{3000}'
}

/// An ASCII decimal digit.
pub open spec fn is_digit(c: char) -> bool {
    '0' <= c && c <= '9'
}

/// The number of bytes `c` takes in UTF-8.
pub open spec fn utf8_len(c: char) -> nat {
    if (c as u32) < 0x80 {
        1
    } else if (c as u32) < 0x800 {
        2
    } else if (c as u32) < 0x10000 {
        3
    } else {
        4
    }
}

/// The number of bytes `s` takes in UTF-8.
pub open spec fn utf8_len_seq(s: Seq<char>) -> nat
    decreases s.len(),
{
    if s.len() == 0 {
        0
    } else {
        utf8_len_seq(s.drop_last()) + utf8_len(s.last())
    }
}

// ---------------------------------------------------------------------------
// Trimming
// ---------------------------------------------------------------------------

/// The number of leading whitespace characters of `s`.
pub open spec fn ws_prefix(s: Seq<char>) -> nat
    decreases s.len(),
{
    if s.len() > 0 && is_ws(s[0]) {
        1 + ws_prefix(s.drop_first())
    } else {
        0
    }
}

/// The number of trailing whitespace characters of `s`.
pub open spec fn ws_suffix(s: Seq<char>) -> nat
    decreases s.len(),
{
    if s.len() > 0 && is_ws(s.last()) {
        1 + ws_suffix(s.drop_last())
    } else {
        0
    }
}

/// `str::trim_start`: `s` without its leading whitespace.
pub open spec fn trim_start(s: Seq<char>) -> Seq<char> {
    s.skip(ws_prefix(s) as int)
}

/// `str::trim_end`: `s` without its trailing whitespace.
pub open spec fn trim_end(s: Seq<char>) -> Seq<char> {
    s.take(s.len() - ws_suffix(s))
}

/// `str::trim`: `s` without leading and trailing whitespace.
pub open spec fn trim(s: Seq<char>) -> Seq<char> {
    trim_end(trim_start(s))
}

pub proof fn lemma_ws_prefix_bound(s: Seq<char>)
    ensures
        ws_prefix(s) <= s.len(),
        forall|j: int| 0 <= j < ws_prefix(s) ==> is_ws(#[trigger] s[j]),
        ws_prefix(s) < s.len() ==> !is_ws(s[ws_prefix(s) as int]),
    decreases s.len(),
{
    if s.len() > 0 && is_ws(s[0]) {
        lemma_ws_prefix_bound(s.drop_first());
        assert forall|j: int| 0 <= j < ws_prefix(s) implies is_ws(#[trigger] s[j]) by {
            if j > 0 {
                assert(s[j] == s.drop_first()[j - 1]);
            }
        }
    }
}

pub proof fn lemma_ws_suffix_bound(s: Seq<char>)
    ensures
        ws_suffix(s) <= s.len(),
    decreases s.len(),
{
    if s.len() > 0 && is_ws(s.last()) {
        lemma_ws_suffix_bound(s.drop_last());
    }
}

/// The number of leading whitespace characters of `v`.
pub fn ws_prefix_count(v: &Vec<char>) -> (n: usize)
    ensures
        n == ws_prefix(v@),
{
    let mut i: usize = 0;
    assert(v@.skip(0) =~= v@);
    while i < v.len() && is_whitespace(v[i])
        invariant
            i <= v.len(),
            ws_prefix(v@) == i + ws_prefix(v@.skip(i as int)),
        decreases v.len() - i,
    {
        assert(v@.skip(i as int).drop_first() =~= v@.skip(i + 1));
        i += 1;
    }
    i
}

/// The number of trailing whitespace characters of `v`.
pub fn ws_suffix_count(v: &Vec<char>) -> (n: usize)
    ensures
        n == ws_suffix(v@),
{
    let mut i: usize = v.len();
    assert(v@.take(v.len() as int) =~= v@);
    while i > 0 && is_whitespace(v[i - 1])
        invariant
            i <= v.len(),
            ws_suffix(v@) == (v.len() - i) + ws_suffix(v@.take(i as int)),
        decreases i,
    {
        assert(v@.take(i as int).drop_last() =~= v@.take(i - 1));
        i -= 1;
    }
    (v.len() - i) as usize
}

/// The bounds `(a, b)` of the trimmed part of `v`.
pub fn trim_bounds(v: &Vec<char>) -> (r: (usize, usize))
    ensures
        r.0 <= r.1 <= v.len(),
        v@.subrange(r.0 as int, r.1 as int) == trim(v@),
        r.0 == ws_prefix(v@),
{
    let a = ws_prefix_count(v);
    proof {
        lemma_ws_prefix_bound(v@);
    }
    let t = copy_range(v, a, v.len());
    let k = ws_suffix_count(&t);
    proof {
        lemma_ws_suffix_bound(t@);
    }
    let b = v.len() - k;
    assert(v@.subrange(a as int, b as int) =~= trim(v@));
    (a, b)
}

// ---------------------------------------------------------------------------
// Prefixes and searching
// ---------------------------------------------------------------------------

/// `pat` is a prefix of `s`.
pub open spec fn starts_with(s: Seq<char>, pat: Seq<char>) -> bool {
    pat.len() <= s.len() && s.take(pat.len() as int) == pat
}

/// The position of the first occurrence of `pat` in `s`, if any
/// (`str::find` with a string pattern, counted in characters).
pub open spec fn find(s: Seq<char>, pat: Seq<char>) -> Option<nat>
    decreases s.len(),
{
    if starts_with(s, pat) {
        Some(0)
    } else if s.len() == 0 {
        None
    } else {
        match find(s.drop_first(), pat) {
            Some(k) => Some(k + 1),
            None => None,
        }
    }
}

pub proof fn lemma_find(s: Seq<char>, pat: Seq<char>)
    ensures
        find(s, pat) matches Some(k) ==> {
            &&& k + pat.len() <= s.len()
            &&& starts_with(s.skip(k as int), pat)
            &&& forall|j: int| 0 <= j < k ==> !starts_with(#[trigger] s.skip(j), pat)
        },
        find(s, pat) is None ==> forall|j: int|
            0 <= j <= s.len() ==> !starts_with(#[trigger] s.skip(j), pat),
    decreases s.len(),
{
    assert(s.skip(0) =~= s);
    if starts_with(s, pat) {
    } else if s.len() == 0 {
    } else {
        lemma_find(s.drop_first(), pat);
        assert forall|j: int| 1 <= j <= s.len() implies s.skip(j) =~= s.drop_first().skip(
            j - 1,
        ) by {}
        if let Some(k) = find(s.drop_first(), pat) {
            assert(s.skip(k + 1 as int) =~= s.drop_first().skip(k as int));
            assert forall|j: int| 0 <= j < k + 1 implies !starts_with(
                #[trigger] s.skip(j),
                pat,
            ) by {
                if j > 0 {
                    assert(s.skip(j) =~= s.drop_first().skip(j - 1));
                }
            }
        } else {
            assert forall|j: int| 0 <= j <= s.len() implies !starts_with(
                #[trigger] s.skip(j),
                pat,
            ) by {
                if j > 0 {
                    assert(s.skip(j) =~= s.drop_first().skip(j - 1));
                }
            }
        }
    }
}

pub proof fn lemma_find_is(s: Seq<char>, pat: Seq<char>, k: int)
    requires
        0 <= k <= s.len(),
        forall|j: int| 0 <= j < k ==> !starts_with(#[trigger] s.skip(j), pat),
        starts_with(s.skip(k), pat),
    ensures
        find(s, pat) == Some(k as nat),
    decreases s.len(),
{
    assert(s.skip(0) =~= s);
    if k > 0 {
        assert forall|j: int| 0 <= j < k - 1 implies !starts_with(
            #[trigger] s.drop_first().skip(j),
            pat,
        ) by {
            assert(s.drop_first().skip(j) =~= s.skip(j + 1));
        }
        assert(s.drop_first().skip(k - 1) =~= s.skip(k));
        lemma_find_is(s.drop_first(), pat, k - 1);
    }
}

pub proof fn lemma_find_none(s: Seq<char>, pat: Seq<char>)
    requires
        forall|j: int| 0 <= j <= s.len() ==> !starts_with(#[trigger] s.skip(j), pat),
    ensures
        find(s, pat) is None,
    decreases s.len(),
{
    assert(s.skip(0) =~= s);
    if s.len() > 0 {
        assert forall|j: int| 0 <= j <= s.drop_first().len() implies !starts_with(
            #[trigger] s.drop_first().skip(j),
            pat,
        ) by {
            assert(s.drop_first().skip(j) =~= s.skip(j + 1));
        }
        lemma_find_none(s.drop_first(), pat);
    }
}

/// Whether `pat` occurs in `v` at position `lo`.
pub fn has_prefix_at(v: &Vec<char>, lo: usize, pat: &Vec<char>) -> (b: bool)
    requires
        lo <= v.len(),
    ensures
        b == starts_with(v@.skip(lo as int), pat@),
{
    if pat.len() > v.len() - lo {
        return false;
    }
    let mut j: usize = 0;
    while j < pat.len()
        invariant
            lo + pat.len() <= v.len(),
            j <= pat.len(),
            forall|k: int| 0 <= k < j ==> v@[lo + k] == pat@[k],
        decreases pat.len() - j,
    {
        if v[lo + j] != pat[j] {
            assert(v@.skip(lo as int).take(pat.len() as int)[j as int] != pat@[j as int]);
            return false;
        }
        j += 1;
    }
    assert(v@.skip(lo as int).take(pat.len() as int) =~= pat@);
    true
}

/// Whether `v` starts with the literal `pat`.
pub fn has_prefix(v: &Vec<char>, pat: &str) -> (b: bool)
    ensures
        b == starts_with(v@, pat@),
{
    let p = chars_of(pat);
    assert(v@.skip(0) =~= v@);
    has_prefix_at(v, 0, &p)
}

/// The first position at or after `lo` where `pat` occurs in `v`.
pub fn find_from(v: &Vec<char>, lo: usize, pat: &Vec<char>) -> (r: Option<usize>)
    requires
        lo <= v.len(),
    ensures
        match r {
            Some(k) => lo <= k && find(v@.skip(lo as int), pat@) == Some((k - lo) as nat),
            None => find(v@.skip(lo as int), pat@) is None,
        },
{
    let ghost s = v@.skip(lo as int);
    let mut k: usize = lo;
    while k <= v.len()
        invariant
            lo <= k,
            s == v@.skip(lo as int),
            forall|j: int| 0 <= j < k - lo ==> !starts_with(#[trigger] s.skip(j), pat@),
        decreases v.len() + 1 - k,
    {
        assert(s.skip(k - lo) =~= v@.skip(k as int));
        if has_prefix_at(v, k, pat) {
            proof {
                lemma_find_is(s, pat@, k - lo);
            }
            return Some(k);
        }
        if k == v.len() {
            proof {
                lemma_find_none(s, pat@);
            }
            return None;
        }
        k += 1;
    }
    proof {
        lemma_find_none(s, pat@);
    }
    None
}

// ---------------------------------------------------------------------------
// Lines
// ---------------------------------------------------------------------------

/// `s` without one trailing carriage return.
pub open spec fn strip_cr(s: Seq<char>) -> Seq<char> {
    if s.len() > 0 && s.last() == '\r' {
        s.drop_last()
    } else {
        s
    }
}

/// `str::lines`: the pieces of `s` between line feeds, each without a
/// carriage return just before its line feed; a final line feed does not
/// start another line.
pub open spec fn lines_of(s: Seq<char>) -> Seq<Seq<char>>
    decreases s.len(),
{
    if s.len() == 0 {
        seq![]
    } else {
        match find(s, seq!['\n']) {
            Some(k) => if k < s.len() {
                seq![strip_cr(s.take(k as int))] + lines_of(s.skip(k + 1 as int))
            } else {
                seq![]
            },
            None => seq![s],
        }
    }
}

pub proof fn lemma_lines_found(s: Seq<char>, k: nat)
    requires
        s.len() > 0,
        find(s, seq!['\n']) == Some(k),
    ensures
        k < s.len(),
        lines_of(s) == seq![strip_cr(s.take(k as int))] + lines_of(s.skip(k + 1 as int)),
{
    lemma_find(s, seq!['\n']);
}

/// The lines of `v`, as `str::lines` splits them.
pub fn split_lines(v: &Vec<char>) -> (lines: Vec<Vec<char>>)
    ensures
        lines@.map_values(|l: Vec<char>| l@) == lines_of(v@),
{
    let nl = vec!['\n'];
    let mut lines: Vec<Vec<char>> = Vec::new();
    let mut pos: usize = 0;
    assert(v@.skip(0) =~= v@);
    while pos < v.len()
        invariant
            pos <= v.len(),
            nl@ == seq!['\n'],
            lines_of(v@) == lines@.map_values(|l: Vec<char>| l@) + lines_of(v@.skip(pos as int)),
        decreases v.len() - pos,
    {
        let ghost s = v@.skip(pos as int);
        let ghost old_lines = lines@.map_values(|l: Vec<char>| l@);
        match find_from(v, pos, &nl) {
            Some(k) => {
                proof {
                    lemma_lines_found(s, (k - pos) as nat);
                }
                let mut end = k;
                if end > pos && v[end - 1] == '\r' {
                    end = end - 1;
                }
                let line = copy_range(v, pos, end);
                assert(line@ =~= strip_cr(s.take(k - pos)));
                lines.push(line);
                assert(lines@.map_values(|l: Vec<char>| l@) =~= old_lines.push(line@));
                assert(s.skip(k - pos + 1) =~= v@.skip(k + 1));
                pos = k + 1;
            },
            None => {
                let line = copy_range(v, pos, v.len());
                assert(line@ =~= s);
                lines.push(line);
                assert(lines@.map_values(|l: Vec<char>| l@) =~= old_lines.push(line@));
                pos = v.len();
                assert(v@.skip(pos as int) =~= Seq::<char>::empty());
            },
        }
    }
    assert(v@.skip(pos as int) =~= Seq::<char>::empty());
    assert(lines@.map_values(|l: Vec<char>| l@) + Seq::<Seq<char>>::empty() =~= lines@.map_values(
        |l: Vec<char>| l@,
    ));
    lines
}

// ---------------------------------------------------------------------------
// Conversions between strings and character vectors
// ---------------------------------------------------------------------------

/// Appends one character to a string.
///
/// Trusted: calls `String::push`, which std documents as appending the
/// given `char` to the end of the string.
#[verifier::external_body]
pub(crate) fn push_char(out: &mut String, c: char)
    ensures
        final(out)@ == old(out)@.push(c),
{
    out.push(c);
}

/// Appends a literal to a string.
pub fn push_str(out: &mut String, s: &str)
    ensures
        final(out)@ == old(out)@ + s@,
{
    out.append(s);
}

/// Appends the characters of `v` to a string.
pub fn push_chars(out: &mut String, v: &Vec<char>)
    ensures
        final(out)@ == old(out)@ + v@,
{
    let ghost start = out@;
    let mut i: usize = 0;
    while i < v.len()
        invariant
            i <= v.len(),
            out@ == start + v@.take(i as int),
        decreases v.len() - i,
    {
        push_char(out, v[i]);
        assert(v@.take(i + 1) =~= v@.take(i as int).push(v@[i as int]));
        i += 1;
    }
    assert(v@.take(v.len() as int) =~= v@);
}

/// The string made of the characters of `v`.
pub fn string_of(v: &Vec<char>) -> (s: String)
    ensures
        s@ == v@,
{
    let mut s = String::new();
    push_chars(&mut s, v);
    s
}

/// The characters of `s`, in order.
pub fn chars_of(s: &str) -> (v: Vec<char>)
    ensures
        v@ == s@,
{
    let mut v: Vec<char> = Vec::new();
    for c in it: s.chars()
        invariant
            v@ == it.seq().take(it.index() as int),
            it.seq() == s@,
    {
        v.push(c);
    }
    v
}

/// A copy of `v[lo..hi]`.
pub fn copy_range(v: &Vec<char>, lo: usize, hi: usize) -> (r: Vec<char>)
    requires
        lo <= hi <= v.len(),
    ensures
        r@ == v@.subrange(lo as int, hi as int),
{
    let mut r: Vec<char> = Vec::new();
    let mut i: usize = lo;
    while i < hi
        invariant
            lo <= i <= hi <= v.len(),
            r@ == v@.subrange(lo as int, i as int),
        decreases hi - i,
    {
        r.push(v[i]);
        assert(v@.subrange(lo as int, i + 1) =~= v@.subrange(lo as int, i as int).push(v@[i as int]));
        i += 1;
    }
    r
}

/// Appends `w` to `v`.
pub fn extend_chars(v: &mut Vec<char>, w: &Vec<char>)
    ensures
        final(v)@ == old(v)@ + w@,
{
    let ghost start = v@;
    let mut i: usize = 0;
    while i < w.len()
        invariant
            i <= w.len(),
            v@ == start + w@.take(i as int),
        decreases w.len() - i,
    {
        v.push(w[i]);
        assert(w@.take(i + 1) =~= w@.take(i as int).push(w@[i as int]));
        i += 1;
    }
    assert(w@.take(w.len() as int) =~= w@);
}

/// Appends the characters of a literal to `v`.
pub fn extend_str(v: &mut Vec<char>, s: &str)
    ensures
        final(v)@ == old(v)@ + s@,
{
    let w = chars_of(s);
    extend_chars(v, &w);
}

/// Whether two strings hold the same characters.
pub fn str_eq(a: &str, b: &str) -> (r: bool)
    ensures
        r == (a@ == b@),
{
    let va = chars_of(a);
    let vb = chars_of(b);
    if va.len() != vb.len() {
        return false;
    }
    let mut i: usize = 0;
    while i < va.len()
        invariant
            va@ == a@,
            vb@ == b@,
            va.len() == vb.len(),
            i <= va.len(),
            forall|j: int| 0 <= j < i ==> va@[j] == vb@[j],
        decreases va.len() - i,
    {
        if va[i] != vb[i] {
            assert(va@[i as int] != vb@[i as int]);
            return false;
        }
        i += 1;
    }
    assert(va@ =~= vb@);
    true
}

/// Whether `v[lo..hi]` holds exactly the characters of the literal `lit`.
pub fn range_is(v: &Vec<char>, lo: usize, hi: usize, lit: &str) -> (b: bool)
    requires
        lo <= hi <= v.len(),
    ensures
        b == (v@.subrange(lo as int, hi as int) == lit@),
{
    let w = chars_of(lit);
    if hi - lo != w.len() {
        return false;
    }
    let b = has_prefix_at(v, lo, &w);
    assert(v@.skip(lo as int).take(w.len() as int) =~= v@.subrange(lo as int, hi as int));
    b
}

/// The position of the last occurrence of `c` in `s`, if any.
pub open spec fn rfind_char(s: Seq<char>, c: char) -> Option<nat>
    decreases s.len(),
{
    if s.len() == 0 {
        None
    } else if s.last() == c {
        Some((s.len() - 1) as nat)
    } else {
        rfind_char(s.drop_last(), c)
    }
}

/// The last occurrence of `c` is at `k` when `s[k]` is `c` and no later
/// character is.
pub proof fn lemma_rfind_char_is(s: Seq<char>, c: char, k: int)
    requires
        0 <= k < s.len(),
        s[k] == c,
        forall|j: int| k < j < s.len() ==> s[j] != c,
    ensures
        rfind_char(s, c) == Some(k as nat),
    decreases s.len(),
{
    if k < s.len() - 1 {
        let t = s.drop_last();
        assert forall|j: int| k < j < t.len() implies t[j] != c by {
            assert(t[j] == s[j]);
        }
        lemma_rfind_char_is(t, c, k);
    }
}

pub proof fn lemma_rfind_char(s: Seq<char>, c: char)
    ensures
        rfind_char(s, c) matches Some(k) ==> (k < s.len() && s[k as int] == c && (forall|j: int|
            k < j < s.len() ==> s[j] != c)),
        rfind_char(s, c) is None ==> (forall|j: int| 0 <= j < s.len() ==> s[j] != c),
    decreases s.len(),
{
    if s.len() > 0 && s.last() != c {
        let t = s.drop_last();
        lemma_rfind_char(t, c);
        match rfind_char(t, c) {
            Some(k) => {
                assert forall|j: int| k < j < s.len() implies s[j] != c by {
                    if j < s.len() - 1 {
                        assert(s[j] == t[j]);
                    }
                }
            },
            None => {
                assert forall|j: int| 0 <= j < s.len() implies s[j] != c by {
                    if j < s.len() - 1 {
                        assert(s[j] == t[j]);
                    }
                }
            },
        }
    }
}

/// The position of the last `c` in `v`.
pub fn rfind_char_exec(v: &Vec<char>, c: char) -> (r: Option<usize>)
    ensures
        match r {
            Some(k) => rfind_char(v@, c) == Some(k as nat),
            None => rfind_char(v@, c) is None,
        },
{
    let mut i: usize = v.len();
    assert(v@.take(v.len() as int) =~= v@);
    while i > 0
        invariant
            i <= v.len(),
            rfind_char(v@, c) == rfind_char(v@.take(i as int), c),
        decreases i,
    {
        if v[i - 1] == c {
            return Some(i - 1);
        }
        assert(v@.take(i as int).drop_last() =~= v@.take(i - 1));
        i -= 1;
    }
    None
}

// ---------------------------------------------------------------------------
// Words
// ---------------------------------------------------------------------------

/// The number of leading characters of `s` that are not whitespace.
pub open spec fn word_len(s: Seq<char>) -> nat
    decreases s.len(),
{
    if s.len() > 0 && !is_ws(s[0]) {
        1 + word_len(s.drop_first())
    } else {
        0
    }
}

pub proof fn lemma_word_len_bound(s: Seq<char>)
    ensures
        word_len(s) <= s.len(),
        s.len() > 0 && !is_ws(s[0]) ==> word_len(s) > 0,
    decreases s.len(),
{
    if s.len() > 0 && !is_ws(s[0]) {
        lemma_word_len_bound(s.drop_first());
    }
}

/// `str::split_whitespace`: the maximal runs of non-whitespace characters.
pub open spec fn words(s: Seq<char>) -> Seq<Seq<char>>
    decreases s.len(),
{
    let t = trim_start(s);
    if t.len() == 0 {
        seq![]
    } else {
        proof {
            lemma_ws_prefix_bound(s);
            lemma_word_len_bound(t);
        }
        seq![t.take(word_len(t) as int)] + words(t.skip(word_len(t) as int))
    }
}

/// The number of whitespace characters at the start of `v[lo..]`.
pub fn ws_prefix_from(v: &Vec<char>, lo: usize) -> (n: usize)
    requires
        lo <= v.len(),
    ensures
        n == ws_prefix(v@.skip(lo as int)),
        lo + n <= v.len(),
{
    let mut i: usize = lo;
    while i < v.len() && is_whitespace(v[i])
        invariant
            lo <= i <= v.len(),
            ws_prefix(v@.skip(lo as int)) == (i - lo) + ws_prefix(v@.skip(i as int)),
        decreases v.len() - i,
    {
        assert(v@.skip(i as int).drop_first() =~= v@.skip(i + 1));
        i += 1;
    }
    i - lo
}

/// The number of non-whitespace characters at the start of `v[lo..]`.
pub fn word_len_from(v: &Vec<char>, lo: usize) -> (n: usize)
    requires
        lo <= v.len(),
    ensures
        n == word_len(v@.skip(lo as int)),
        lo + n <= v.len(),
{
    let mut i: usize = lo;
    while i < v.len() && !is_whitespace(v[i])
        invariant
            lo <= i <= v.len(),
            word_len(v@.skip(lo as int)) == (i - lo) + word_len(v@.skip(i as int)),
        decreases v.len() - i,
    {
        assert(v@.skip(i as int).drop_first() =~= v@.skip(i + 1));
        i += 1;
    }
    i - lo
}

/// The words of `v`, as `str::split_whitespace` yields them.
pub fn split_words(v: &Vec<char>) -> (ws: Vec<Vec<char>>)
    ensures
        ws@.map_values(|w: Vec<char>| w@) == words(v@),
{
    let mut ws: Vec<Vec<char>> = Vec::new();
    let mut pos: usize = 0;
    assert(v@.skip(0) =~= v@);
    assert(Seq::<Seq<char>>::empty() + words(v@) =~= words(v@));
    loop
        invariant
            pos <= v.len(),
            words(v@) == ws@.map_values(|w: Vec<char>| w@) + words(v@.skip(pos as int)),
        decreases v.len() - pos,
    {
        let ghost s = v@.skip(pos as int);
        let ghost before = ws@.map_values(|w: Vec<char>| w@);
        let a = pos + ws_prefix_from(v, pos);
        assert(trim_start(s) =~= v@.skip(a as int));
        if a == v.len() {
            assert(words(s) =~= Seq::<Seq<char>>::empty());
            assert(before + Seq::<Seq<char>>::empty() =~= before);
            return ws;
        }
        proof {
            lemma_ws_prefix_bound(s);
        }
        let k = word_len_from(v, a);
        let w = copy_range(v, a, a + k);
        assert(w@ =~= v@.skip(a as int).take(k as int));
        assert(v@.skip(a as int).skip(k as int) =~= v@.skip(a + k));
        ws.push(w);
        assert(ws@.map_values(|w: Vec<char>| w@) =~= before.push(w@));
        assert(before + (seq![w@] + words(v@.skip(a + k))) =~= before.push(w@) + words(
            v@.skip(a + k),
        ));
        pos = a + k;
    }
}

} // verus!

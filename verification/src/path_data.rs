use vstd::prelude::*;

use crate::markdown::{digit_prefix, lemma_digit_prefix_bound};
use crate::text::{chars_of, copy_range, is_whitespace, is_ws, string_of};

verus! {

// ---------------------------------------------------------------------------
// Lexing
// ---------------------------------------------------------------------------

/// A separator between path-data numbers: whitespace or a comma.
pub open spec fn is_sep(c: char) -> bool {
    is_ws(c) || c == ','
}

/// An ASCII letter (a path command).
pub open spec fn is_alpha(c: char) -> bool {
    ('A' <= c && c <= 'Z') || ('a' <= c && c <= 'z')
}

/// The number of leading separators of `s`.
pub open spec fn sep_prefix(s: Seq<char>) -> nat
    decreases s.len(),
{
    if s.len() > 0 && is_sep(s[0]) {
        1 + sep_prefix(s.drop_first())
    } else {
        0
    }
}

/// 1 if `t` starts with a sign, else 0.
pub open spec fn sign_len(t: Seq<char>) -> nat {
    if t.len() > 0 && (t[0] == '-' || t[0] == '+') {
        1
    } else {
        0
    }
}

/// The length of the number text at the start of `t` (optional sign,
/// digits, optional `.` and digits, optional `e`/`E` with optional sign and
/// digits), and whether that text is a valid `f64` literal: at least one
/// digit before the exponent, and at least one digit in the exponent if
/// there is one (the grammar of `f64::from_str`).
pub open spec fn lex_number(t: Seq<char>) -> (nat, bool) {
    let p1 = sign_len(t);
    let d1 = digit_prefix(t.skip(p1 as int));
    let p2 = p1 + d1;
    let dot = p2 < t.len() && t[p2 as int] == '.';
    let d2 = if dot {
        digit_prefix(t.skip(p2 + 1 as int))
    } else {
        0
    };
    let p3 = if dot {
        p2 + 1 + d2
    } else {
        p2
    };
    let e = p3 < t.len() && (t[p3 as int] == 'e' || t[p3 as int] == 'E');
    let p4 = if e {
        p3 + 1 + sign_len(t.skip(p3 + 1 as int))
    } else {
        p3
    };
    let d3 = if e {
        digit_prefix(t.skip(p4 as int))
    } else {
        0
    };
    let len = if e {
        p4 + d3
    } else {
        p3
    };
    (len, d1 + d2 > 0 && (!e || d3 > 0))
}

/// Reading a number: the separators before it are skipped, then the number
/// text is taken. Gives the text if it is a valid number, and how many
/// characters were consumed either way.
pub open spec fn read_number_spec(r: Seq<char>) -> (Option<Seq<char>>, nat) {
    let k = sep_prefix(r);
    let t = r.skip(k as int);
    let ln = lex_number(t);
    (
        if ln.1 {
            Some(t.take(ln.0 as int))
        } else {
            None
        },
        k + ln.0,
    )
}

pub proof fn lemma_sep_prefix_bound(s: Seq<char>)
    ensures
        sep_prefix(s) <= s.len(),
    decreases s.len(),
{
    if s.len() > 0 && is_sep(s[0]) {
        lemma_sep_prefix_bound(s.drop_first());
    }
}

pub proof fn lemma_lex_number_bound(t: Seq<char>)
    ensures
        lex_number(t).0 <= t.len(),
{
    let p1 = sign_len(t);
    lemma_digit_prefix_bound(t.skip(p1 as int));
    let p2 = p1 + digit_prefix(t.skip(p1 as int));
    if p2 < t.len() && t[p2 as int] == '.' {
        lemma_digit_prefix_bound(t.skip(p2 + 1 as int));
    }
    let lx = lex_number(t);
    let dot = p2 < t.len() && t[p2 as int] == '.';
    let p3 = if dot {
        p2 + 1 + digit_prefix(t.skip(p2 + 1 as int))
    } else {
        p2
    };
    if p3 < t.len() && (t[p3 as int] == 'e' || t[p3 as int] == 'E') {
        let p4 = p3 + 1 + sign_len(t.skip(p3 + 1 as int));
        lemma_digit_prefix_bound(t.skip(p4 as int));
    }
}

pub proof fn lemma_read_number_bound(r: Seq<char>)
    ensures
        read_number_spec(r).1 <= r.len(),
{
    lemma_sep_prefix_bound(r);
    lemma_lex_number_bound(r.skip(sep_prefix(r) as int));
}

proof fn lemma_digit_prefix_take(s: Seq<char>, m: int)
    requires
        digit_prefix(s) <= m <= s.len(),
    ensures
        digit_prefix(s.take(m)) == digit_prefix(s),
    decreases s.len(),
{
    if digit_prefix(s) > 0 {
        assert(s.take(m).drop_first() =~= s.drop_first().take(m - 1));
        lemma_digit_prefix_take(s.drop_first(), m - 1);
    } else if m > 0 {
        assert(s.take(m)[0] == s[0]);
    }
}

/// The number text that lexing takes is, on its own, lexed whole, with the
/// same verdict.
proof fn lemma_lex_number_take(t: Seq<char>)
    ensures
        lex_number(t.take(lex_number(t).0 as int)) == lex_number(t),
{
    lemma_lex_number_bound(t);
    let l = lex_number(t).0 as int;
    let u = t.take(l);
    let p1 = sign_len(t);
    let d1 = digit_prefix(t.skip(p1 as int));
    lemma_digit_prefix_bound(t.skip(p1 as int));
    let p2 = p1 + d1;
    let dot = p2 < t.len() && t[p2 as int] == '.';
    let d2 = if dot {
        digit_prefix(t.skip(p2 + 1 as int))
    } else {
        0
    };
    if dot {
        lemma_digit_prefix_bound(t.skip(p2 + 1 as int));
    }
    let p3 = if dot {
        p2 + 1 + d2
    } else {
        p2
    };
    let e = p3 < t.len() && (t[p3 as int] == 'e' || t[p3 as int] == 'E');
    let p4 = if e {
        p3 + 1 + sign_len(t.skip(p3 + 1 as int))
    } else {
        p3
    };
    if e {
        lemma_digit_prefix_bound(t.skip(p4 as int));
    }
    assert(p1 <= p2 <= p3 <= p4 <= l);
    // the sign
    if l > 0 {
        assert(u[0] == t[0]);
    }
    assert(sign_len(u) == p1);
    // the digits before the point
    assert(u.skip(p1 as int) =~= t.skip(p1 as int).take(l - p1));
    lemma_digit_prefix_take(t.skip(p1 as int), l - p1);
    // the point and the digits after it
    if p2 < l {
        assert(u[p2 as int] == t[p2 as int]);
    }
    if dot {
        assert(u.skip(p2 + 1 as int) =~= t.skip(p2 + 1 as int).take(l - p2 - 1));
        lemma_digit_prefix_take(t.skip(p2 + 1 as int), l - p2 - 1);
    }
    // the exponent
    if p3 < l {
        assert(u[p3 as int] == t[p3 as int]);
    }
    if e {
        if p3 + 1 < l {
            assert(u[p3 + 1int] == t[p3 + 1int]);
        }
        assert(u.skip(p3 + 1 as int).len() > 0 ==> u.skip(p3 + 1 as int)[0] == t.skip(
            p3 + 1 as int,
        )[0]);
        assert(sign_len(u.skip(p3 + 1 as int)) == sign_len(t.skip(p3 + 1 as int)));
        assert(u.skip(p4 as int) =~= t.skip(p4 as int).take(l - p4));
        lemma_digit_prefix_take(t.skip(p4 as int), l - p4);
    }
}

/// A number text that reading gives is a valid `f64` literal as a whole.
pub open spec fn whole_number(x: Seq<char>) -> bool {
    lex_number(x) == (x.len(), true)
}

proof fn lemma_read_number_whole(r: Seq<char>)
    ensures
        read_number_spec(r).0 matches Some(x) ==> whole_number(x),
{
    let t = r.skip(sep_prefix(r) as int);
    lemma_lex_number_bound(t);
    lemma_lex_number_take(t);
}

// ---------------------------------------------------------------------------
// Output pieces
// ---------------------------------------------------------------------------

/// A piece of transformed path data: a character kept as it is, or a
/// number (by its text) to be moved to page-image coordinates: scaled, and
/// first shifted by half the page width when `shift` holds.
pub enum PathPiece {
    Kept(char),
    Number { text: String, shift: bool },
}

/// A piece of transformed path data, with the number text as characters.
pub enum PieceView {
    Kept(char),
    Number(Seq<char>, bool),
}

pub open spec fn piece_view(p: PathPiece) -> PieceView {
    match p {
        PathPiece::Kept(c) => PieceView::Kept(c),
        PathPiece::Number { text, shift } => PieceView::Number(text@, shift),
    }
}

pub open spec fn pieces_view(v: Seq<PathPiece>) -> Seq<PieceView> {
    v.map_values(|p: PathPiece| piece_view(p))
}

/// The characters of `s`, each kept as it is.
pub open spec fn char_pieces(s: Seq<char>) -> Seq<PieceView> {
    s.map_values(|c: char| kept(c))
}

/// A character kept as it is.
pub open spec fn kept(c: char) -> PieceView {
    PieceView::Kept(c)
}

// ---------------------------------------------------------------------------
// Commands
// ---------------------------------------------------------------------------

/// One coordinate pair: `x` (shifted when `shift` holds), a comma, and `y`.
/// Nothing is written unless both numbers read are valid; the separators
/// between them are dropped.
pub open spec fn pair_spec(r: Seq<char>, shift: bool) -> (Seq<PieceView>, nat) {
    let rx = read_number_spec(r);
    match rx.0 {
        None => (seq![], rx.1),
        Some(x) => {
            let r1 = r.skip(rx.1 as int);
            let k = sep_prefix(r1);
            let ry = read_number_spec(r1.skip(k as int));
            match ry.0 {
                None => (seq![], rx.1 + k + ry.1),
                Some(y) => (
                    seq![PieceView::Number(x, shift), PieceView::Kept(','), PieceView::Number(y, false)],
                    rx.1 + k + ry.1,
                ),
            }
        },
    }
}

/// Pairs `i` to `count` of a curve command: a space before each but the
/// first, separators after each dropped.
pub open spec fn pair_group(r: Seq<char>, shift: bool, i: nat, count: nat) -> (Seq<PieceView>, nat)
    decreases count - i,
{
    if i >= count {
        (seq![], 0)
    } else {
        let lead = if i > 0 {
            seq![PieceView::Kept(' ')]
        } else {
            seq![]
        };
        let p = pair_spec(r, shift);
        let r1 = r.skip(p.1 as int);
        let k = sep_prefix(r1);
        let rest = pair_group(r1.skip(k as int), shift, i + 1, count);
        (lead + p.0 + rest.0, p.1 + k + rest.1)
    }
}

/// A single number (shifted when `shift` holds), if valid.
pub open spec fn single_spec(r: Seq<char>, shift: bool) -> (Seq<PieceView>, nat) {
    let rn = read_number_spec(r);
    match rn.0 {
        Some(x) => (seq![PieceView::Number(x, shift)], rn.1),
        None => (seq![], rn.1),
    }
}

/// Reading `n` numbers one after the other: their texts if all are valid,
/// and how many characters were consumed (up to and including the first
/// invalid one, if any).
pub open spec fn read_numbers(r: Seq<char>, n: nat) -> (Option<Seq<Seq<char>>>, nat)
    decreases n,
{
    if n == 0 {
        (Some(seq![]), 0)
    } else {
        let rx = read_number_spec(r);
        match rx.0 {
            None => (None, rx.1),
            Some(x) => {
                let rest = read_numbers(r.skip(rx.1 as int), (n - 1) as nat);
                (
                    match rest.0 {
                        Some(ns) => Some(seq![x] + ns),
                        None => None,
                    },
                    rx.1 + rest.1,
                )
            },
        }
    }
}

/// The pieces of an elliptical arc from its seven parameters: the radii
/// scaled, the rotation and the two flags kept as written, and the end point
/// moved like any other point (its x shifted when `shift` holds).
pub open spec fn arc_pieces(ns: Seq<Seq<char>>, shift: bool) -> Seq<PieceView> {
    seq![PieceView::Number(ns[0], false), PieceView::Kept(','), PieceView::Number(ns[1], false), PieceView::Kept(' ')]
        + char_pieces(ns[2]) + seq![PieceView::Kept(' ')] + char_pieces(ns[3]) + seq![PieceView::Kept(',')]
        + char_pieces(ns[4]) + seq![PieceView::Kept(' '), PieceView::Number(ns[5], shift), PieceView::Kept(','), PieceView::Number(ns[6], false)]
}

/// One elliptical arc: nothing is written unless all seven numbers read are
/// valid.
pub open spec fn arc_spec(r: Seq<char>, shift: bool) -> (Seq<PieceView>, nat) {
    let rn = read_numbers(r, 7);
    match rn.0 {
        Some(ns) => (arc_pieces(ns, shift), rn.1),
        None => (seq![], rn.1),
    }
}

/// What the current command reads from `r` (which starts with neither a
/// separator nor a letter), and how many characters that consumes.
/// Absolute commands shift their x coordinates; relative ones only scale.
pub open spec fn command_spec(cmd: char, r: Seq<char>) -> (Seq<PieceView>, nat) {
    if cmd == 'M' || cmd == 'L' || cmd == 'T' {
        pair_spec(r, true)
    } else if cmd == 'm' || cmd == 'l' || cmd == 't' {
        pair_spec(r, false)
    } else if cmd == 'C' {
        pair_group(r, true, 0, 3)
    } else if cmd == 'c' {
        pair_group(r, false, 0, 3)
    } else if cmd == 'Q' || cmd == 'S' {
        pair_group(r, true, 0, 2)
    } else if cmd == 'q' || cmd == 's' {
        pair_group(r, false, 0, 2)
    } else if cmd == 'H' {
        single_spec(r, true)
    } else if cmd == 'h' || cmd == 'V' || cmd == 'v' {
        single_spec(r, false)
    } else if cmd == 'A' {
        arc_spec(r, true)
    } else if cmd == 'a' {
        arc_spec(r, false)
    } else if cmd == 'Z' || cmd == 'z' {
        (seq![], 0)
    } else {
        single_spec(r, false)
    }
}

/// One round of the path-data loop: the separators (kept), then either a
/// command letter (kept; it becomes the current command) or what the current
/// command reads. Gives the pieces, the characters consumed and the command
/// after the round.
#[verifier::opaque]
pub open spec fn path_step(rest: Seq<char>, cmd: char) -> (Seq<PieceView>, nat, char) {
    let k = sep_prefix(rest);
    let seps = char_pieces(rest.take(k as int));
    let r1 = rest.skip(k as int);
    if r1.len() > 0 && is_alpha(r1[0]) {
        (seps.push(PieceView::Kept(r1[0])), k + 1, r1[0])
    } else if r1.len() == 0 {
        (seps, k, cmd)
    } else {
        let b = command_spec(cmd, r1);
        (seps + b.0, k + b.1, cmd)
    }
}

/// The transformed path data of `rest` under the current command `cmd`;
/// `None` when a round consumes nothing (a number character that no command
/// reads, or one after `Z`), where the loop would never end.
pub open spec fn path_plan(rest: Seq<char>, cmd: char) -> Option<Seq<PieceView>>
    decreases rest.len(),
{
    if rest.len() == 0 {
        Some(seq![])
    } else {
        let st = path_step(rest, cmd);
        if 0 < st.1 && st.1 <= rest.len() {
            match path_plan(rest.skip(st.1 as int), st.2) {
                Some(p) => Some(st.0 + p),
                None => None,
            }
        } else {
            None
        }
    }
}

/// The transformed path data of a `d` attribute.
pub open spec fn path_data_spec(d: Seq<char>) -> Option<Seq<PieceView>> {
    path_plan(d, ' ')
}

/// A piece is a kept character or a number whose text is a valid `f64`
/// literal as a whole.
pub open spec fn piece_ok(p: PieceView) -> bool {
    match p {
        PieceView::Kept(_) => true,
        PieceView::Number(x, _) => whole_number(x),
    }
}

pub open spec fn pieces_ok(ps: Seq<PieceView>) -> bool {
    forall|i: int| 0 <= i < ps.len() ==> piece_ok(#[trigger] ps[i])
}

proof fn lemma_pieces_ok_concat(a: Seq<PieceView>, b: Seq<PieceView>)
    requires
        pieces_ok(a),
        pieces_ok(b),
    ensures
        pieces_ok(a + b),
{
    assert forall|i: int| 0 <= i < (a + b).len() implies piece_ok(#[trigger] (a + b)[i]) by {
        if i < a.len() {
            assert((a + b)[i] == a[i]);
        } else {
            assert((a + b)[i] == b[i - a.len()]);
        }
    }
}

proof fn lemma_pair_ok(r: Seq<char>, shift: bool)
    ensures
        pieces_ok(pair_spec(r, shift).0),
{
    lemma_read_number_whole(r);
    let rx = read_number_spec(r);
    let r1 = r.skip(rx.1 as int);
    let k = sep_prefix(r1);
    lemma_read_number_whole(r1.skip(k as int));
}

proof fn lemma_pair_group_ok(r: Seq<char>, shift: bool, i: nat, count: nat)
    ensures
        pieces_ok(pair_group(r, shift, i, count).0),
    decreases count - i,
{
    if i < count {
        let lead = if i > 0 {
            seq![PieceView::Kept(' ')]
        } else {
            seq![]
        };
        let p = pair_spec(r, shift);
        let r1 = r.skip(p.1 as int);
        let k = sep_prefix(r1);
        lemma_pair_ok(r, shift);
        lemma_pair_group_ok(r1.skip(k as int), shift, i + 1, count);
        assert(pieces_ok(lead));
        lemma_pieces_ok_concat(lead, p.0);
        lemma_pieces_ok_concat(lead + p.0, pair_group(r1.skip(k as int), shift, i + 1, count).0);
    }
}

proof fn lemma_read_numbers_whole(r: Seq<char>, n: nat)
    ensures
        read_numbers(r, n).0 matches Some(ns) ==> ns.len() == n && forall|i: int|
            0 <= i < ns.len() ==> whole_number(#[trigger] ns[i]),
    decreases n,
{
    if n > 0 {
        lemma_read_number_whole(r);
        let rx = read_number_spec(r);
        lemma_read_numbers_whole(r.skip(rx.1 as int), (n - 1) as nat);
        if let Some(x) = rx.0 {
            if let Some(ns) = read_numbers(r.skip(rx.1 as int), (n - 1) as nat).0 {
                let all = seq![x] + ns;
                assert forall|i: int| 0 <= i < all.len() implies whole_number(#[trigger] all[i]) by {
                    if i > 0 {
                        assert(all[i] == ns[i - 1]);
                    }
                }
            }
        }
    }
}

proof fn lemma_arc_ok(r: Seq<char>, shift: bool)
    ensures
        pieces_ok(arc_spec(r, shift).0),
{
    lemma_read_numbers_whole(r, 7);
    if let Some(ns) = read_numbers(r, 7).0 {
        let ps = arc_pieces(ns, shift);
        assert(whole_number(ns[0]) && whole_number(ns[1]) && whole_number(ns[5]) && whole_number(
            ns[6],
        ));
        assert forall|i: int| 0 <= i < ps.len() implies piece_ok(#[trigger] ps[i]) by {
            let c2 = char_pieces(ns[2]);
            let c3 = char_pieces(ns[3]);
            let c4 = char_pieces(ns[4]);
            let a = 4 + c2.len();
            let b = a + 1 + c3.len();
            let c = b + 1 + c4.len();
            if 4 <= i < a {
                assert(ps[i] == c2[i - 4]);
            } else if a + 1 <= i < b {
                assert(ps[i] == c3[i - a - 1]);
            } else if b + 1 <= i < c {
                assert(ps[i] == c4[i - b - 1]);
            }
        }
    }
}

proof fn lemma_command_ok(cmd: char, r: Seq<char>)
    ensures
        pieces_ok(command_spec(cmd, r).0),
{
    lemma_pair_ok(r, true);
    lemma_pair_ok(r, false);
    lemma_pair_group_ok(r, true, 0, 3);
    lemma_pair_group_ok(r, false, 0, 3);
    lemma_pair_group_ok(r, true, 0, 2);
    lemma_pair_group_ok(r, false, 0, 2);
    lemma_read_number_whole(r);
    lemma_arc_ok(r, true);
    lemma_arc_ok(r, false);
}

proof fn lemma_plan_ok(rest: Seq<char>, cmd: char)
    ensures
        path_plan(rest, cmd) matches Some(ps) ==> pieces_ok(ps),
    decreases rest.len(),
{
    if rest.len() > 0 {
        let st = path_step(rest, cmd);
        if 0 < st.1 && st.1 <= rest.len() {
            lemma_plan_ok(rest.skip(st.1 as int), st.2);
            reveal(path_step);
            let k = sep_prefix(rest);
            let seps = char_pieces(rest.take(k as int));
            assert(pieces_ok(seps));
            let r1 = rest.skip(k as int);
            if r1.len() > 0 && !is_alpha(r1[0]) {
                lemma_command_ok(cmd, r1);
                lemma_pieces_ok_concat(seps, command_spec(cmd, r1).0);
            }
            assert(pieces_ok(st.0));
            if let Some(p) = path_plan(rest.skip(st.1 as int), st.2) {
                lemma_pieces_ok_concat(st.0, p);
            }
        }
    }
}

/// Every number in transformed path data is a valid `f64` literal as a
/// whole, so moving it to page-image coordinates never fails to parse it.
pub proof fn lemma_path_numbers_valid(d: Seq<char>)
    ensures
        path_data_spec(d) matches Some(ps) ==> pieces_ok(ps),
{
    lemma_plan_ok(d, ' ');
}

/// An ASCII capital letter (an absolute path command).
pub open spec fn is_upper(c: char) -> bool {
    'A' <= c && c <= 'Z'
}

/// No number among `ps` is shifted: the horizontal offset leaves them all
/// alone.
pub open spec fn pieces_unshifted(ps: Seq<PieceView>) -> bool {
    forall|i: int| 0 <= i < ps.len() ==> !(#[trigger] ps[i] matches PieceView::Number(_, true))
}

proof fn lemma_unshifted_concat(a: Seq<PieceView>, b: Seq<PieceView>)
    requires
        pieces_unshifted(a),
        pieces_unshifted(b),
    ensures
        pieces_unshifted(a + b),
{
    assert forall|i: int| 0 <= i < (a + b).len() implies !((#[trigger] (a + b)[i]) matches PieceView::Number(_, true)) by {
        if i < a.len() {
            assert((a + b)[i] == a[i]);
        } else {
            assert((a + b)[i] == b[i - a.len()]);
        }
    }
}

proof fn lemma_pair_group_unshifted(r: Seq<char>, i: nat, count: nat)
    ensures
        pieces_unshifted(pair_group(r, false, i, count).0),
    decreases count - i,
{
    if i < count {
        let lead = if i > 0 {
            seq![PieceView::Kept(' ')]
        } else {
            seq![]
        };
        let p = pair_spec(r, false);
        let r1 = r.skip(p.1 as int);
        let k = sep_prefix(r1);
        lemma_pair_group_unshifted(r1.skip(k as int), i + 1, count);
        assert(pieces_unshifted(lead));
        assert(pieces_unshifted(p.0));
        lemma_unshifted_concat(lead, p.0);
        lemma_unshifted_concat(lead + p.0, pair_group(r1.skip(k as int), false, i + 1, count).0);
    }
}

proof fn lemma_arc_unshifted(r: Seq<char>)
    ensures
        pieces_unshifted(arc_spec(r, false).0),
{
    if let Some(ns) = read_numbers(r, 7).0 {
        let ps = arc_pieces(ns, false);
        assert forall|i: int| 0 <= i < ps.len() implies !((#[trigger] ps[i]) matches PieceView::Number(_, true)) by {
            let c2 = char_pieces(ns[2]);
            let c3 = char_pieces(ns[3]);
            let c4 = char_pieces(ns[4]);
            let a = 4 + c2.len();
            let b = a + 1 + c3.len();
            let c = b + 1 + c4.len();
            if 4 <= i < a {
                assert(ps[i] == c2[i - 4]);
            } else if a + 1 <= i < b {
                assert(ps[i] == c3[i - a - 1]);
            } else if b + 1 <= i < c {
                assert(ps[i] == c4[i - b - 1]);
            }
        }
    }
}

proof fn lemma_plan_unshifted(rest: Seq<char>, cmd: char)
    requires
        !is_upper(cmd),
        forall|i: int| 0 <= i < rest.len() ==> !is_upper(#[trigger] rest[i]),
    ensures
        path_plan(rest, cmd) matches Some(ps) ==> pieces_unshifted(ps),
    decreases rest.len(),
{
    if rest.len() > 0 {
        let st = path_step(rest, cmd);
        if 0 < st.1 && st.1 <= rest.len() {
            reveal(path_step);
            let k = sep_prefix(rest);
            lemma_sep_prefix_bound(rest);
            let seps = char_pieces(rest.take(k as int));
            assert(pieces_unshifted(seps));
            let r1 = rest.skip(k as int);
            if r1.len() > 0 && is_alpha(r1[0]) {
                assert(r1[0] == rest[k as int]);
            } else if r1.len() > 0 {
                let b = command_spec(cmd, r1);
                lemma_pair_group_unshifted(r1, 0, 3);
                lemma_pair_group_unshifted(r1, 0, 2);
                lemma_arc_unshifted(r1);
                assert(pieces_unshifted(b.0));
                lemma_unshifted_concat(seps, b.0);
            }
            assert(pieces_unshifted(st.0));
            let next = rest.skip(st.1 as int);
            assert forall|i: int| 0 <= i < next.len() implies !is_upper(#[trigger] next[i]) by {
                assert(next[i] == rest[i + st.1]);
            }
            lemma_plan_unshifted(next, st.2);
            if let Some(p) = path_plan(next, st.2) {
                lemma_unshifted_concat(st.0, p);
            }
        }
    }
}

/// Path data with relative commands only (no capital letter) has no
/// shifted number, so the horizontal offset does not change its
/// transformation: relative moves are only scaled.
pub proof fn lemma_relative_path_unshifted(d: Seq<char>)
    requires
        forall|i: int| 0 <= i < d.len() ==> !is_upper(#[trigger] d[i]),
    ensures
        path_data_spec(d) matches Some(ps) ==> pieces_unshifted(ps),
{
    lemma_plan_unshifted(d, ' ');
}

/// The shift flags of the numbers among `ps`, in order.
pub open spec fn number_shifts(ps: Seq<PieceView>) -> Seq<bool>
    decreases ps.len(),
{
    if ps.len() == 0 {
        seq![]
    } else {
        match ps.last() {
            PieceView::Number(_, sh) => number_shifts(ps.drop_last()).push(sh),
            PieceView::Kept(_) => number_shifts(ps.drop_last()),
        }
    }
}

proof fn lemma_number_shifts_concat(a: Seq<PieceView>, b: Seq<PieceView>)
    ensures
        number_shifts(a + b) == number_shifts(a) + number_shifts(b),
    decreases b.len(),
{
    if b.len() == 0 {
        assert(a + b =~= a);
        assert(number_shifts(a) + seq![] =~= number_shifts(a));
    } else {
        assert((a + b).drop_last() =~= a + b.drop_last());
        lemma_number_shifts_concat(a, b.drop_last());
        assert((a + b).last() == b.last());
        match b.last() {
            PieceView::Number(_, sh) => {
                assert(number_shifts(a) + number_shifts(b.drop_last()).push(sh) =~= (number_shifts(
                    a,
                ) + number_shifts(b.drop_last())).push(sh));
            },
            PieceView::Kept(_) => {},
        }
    }
}

proof fn lemma_number_shifts_kept(s: Seq<char>)
    ensures
        number_shifts(char_pieces(s)) == Seq::<bool>::empty(),
    decreases s.len(),
{
    if s.len() > 0 {
        assert(char_pieces(s).drop_last() =~= char_pieces(s.drop_last()));
        lemma_number_shifts_kept(s.drop_last());
    }
}

proof fn lemma_number_shifts_one(p: PieceView)
    ensures
        number_shifts(seq![p]) == (match p {
            PieceView::Number(_, sh) => seq![sh],
            PieceView::Kept(_) => Seq::<bool>::empty(),
        }),
{
    assert(seq![p].drop_last() =~= Seq::<PieceView>::empty());
    assert(seq![p].last() == p);
    assert(number_shifts(Seq::<PieceView>::empty()) == Seq::<bool>::empty());
    if let PieceView::Number(_, sh) = p {
        assert(Seq::<bool>::empty().push(sh) =~= seq![sh]);
    }
}

/// Flags of coordinate pairs: x flags (at even places) are `sh`, y flags
/// are unset.
pub open spec fn pair_flags(fl: Seq<bool>, sh: bool) -> bool {
    &&& fl.len() % 2 == 0
    &&& forall|i: int| 0 <= i < fl.len() ==> #[trigger] fl[i] == (sh && i % 2 == 0)
}

proof fn lemma_pair_shifts(r: Seq<char>, sh: bool)
    ensures
        pair_flags(number_shifts(pair_spec(r, sh).0), sh),
{
    let p = pair_spec(r, sh).0;
    if p.len() > 0 {
        let a = seq![p[0]];
        let b = seq![p[1]];
        let c = seq![p[2]];
        assert(p =~= a + b + c);
        lemma_number_shifts_one(p[0]);
        lemma_number_shifts_one(p[1]);
        lemma_number_shifts_one(p[2]);
        lemma_number_shifts_concat(a, b);
        lemma_number_shifts_concat(a + b, c);
        assert(number_shifts(p) =~= seq![sh, false]);
    } else {
        assert(p =~= Seq::<PieceView>::empty());
    }
}

proof fn lemma_pair_flags_concat(a: Seq<bool>, b: Seq<bool>, sh: bool)
    requires
        pair_flags(a, sh),
        pair_flags(b, sh),
    ensures
        pair_flags(a + b, sh),
{
    assert forall|i: int| 0 <= i < (a + b).len() implies #[trigger] (a + b)[i] == (sh && i % 2
        == 0) by {
        if i >= a.len() {
            assert((a + b)[i] == b[i - a.len()]);
            assert((i - a.len()) % 2 == i % 2);
        }
    }
}

proof fn lemma_pair_group_shifts(r: Seq<char>, sh: bool, i: nat, count: nat)
    ensures
        pair_flags(number_shifts(pair_group(r, sh, i, count).0), sh),
    decreases count - i,
{
    if i < count {
        let lead = if i > 0 {
            seq![PieceView::Kept(' ')]
        } else {
            seq![]
        };
        let p = pair_spec(r, sh);
        let r1 = r.skip(p.1 as int);
        let k = sep_prefix(r1);
        let rest = pair_group(r1.skip(k as int), sh, i + 1, count).0;
        lemma_pair_group_shifts(r1.skip(k as int), sh, i + 1, count);
        lemma_pair_shifts(r, sh);
        assert(number_shifts(lead) =~= Seq::<bool>::empty()) by {
            if i > 0 {
                lemma_number_shifts_one(PieceView::Kept(' '));
            }
        }
        lemma_number_shifts_concat(lead, p.0);
        lemma_number_shifts_concat(lead + p.0, rest);
        assert(number_shifts(lead) + number_shifts(p.0) =~= number_shifts(p.0));
        lemma_pair_flags_concat(number_shifts(p.0), number_shifts(rest), sh);
    }
}

proof fn lemma_arc_shifts(r: Seq<char>, sh: bool)
    ensures
        number_shifts(arc_spec(r, sh).0) == Seq::<bool>::empty() || number_shifts(
            arc_spec(r, sh).0,
        ) == seq![false, false, sh, false],
{
    if let Some(ns) = read_numbers(r, 7).0 {
        let a = seq![PieceView::Number(ns[0], false), PieceView::Kept(','), PieceView::Number(ns[1], false), PieceView::Kept(' ')];
        let c2 = char_pieces(ns[2]);
        let sp = seq![PieceView::Kept(' ')];
        let c3 = char_pieces(ns[3]);
        let cm = seq![PieceView::Kept(',')];
        let c4 = char_pieces(ns[4]);
        let z = seq![PieceView::Kept(' '), PieceView::Number(ns[5], sh), PieceView::Kept(','), PieceView::Number(ns[6], false)];
        lemma_number_shifts_kept(ns[2]);
        lemma_number_shifts_kept(ns[3]);
        lemma_number_shifts_kept(ns[4]);
        lemma_number_shifts_one(PieceView::Number(ns[0], false));
        lemma_number_shifts_one(PieceView::Number(ns[1], false));
        lemma_number_shifts_one(PieceView::Number(ns[5], sh));
        lemma_number_shifts_one(PieceView::Number(ns[6], false));
        lemma_number_shifts_one(PieceView::Kept(','));
        lemma_number_shifts_one(PieceView::Kept(' '));
        let n0 = seq![PieceView::Number(ns[0], false)];
        let n1 = seq![PieceView::Number(ns[1], false)];
        let n5 = seq![PieceView::Number(ns[5], sh)];
        let n6 = seq![PieceView::Number(ns[6], false)];
        assert(a =~= n0 + cm + n1 + sp);
        assert(z =~= sp + n5 + cm + n6);
        lemma_number_shifts_concat(n0, cm);
        lemma_number_shifts_concat(n0 + cm, n1);
        lemma_number_shifts_concat(n0 + cm + n1, sp);
        lemma_number_shifts_concat(sp, n5);
        lemma_number_shifts_concat(sp + n5, cm);
        lemma_number_shifts_concat(sp + n5 + cm, n6);
        assert(number_shifts(a) =~= seq![false, false]);
        assert(number_shifts(z) =~= seq![sh, false]);
        lemma_number_shifts_concat(a, c2);
        lemma_number_shifts_concat(a + c2, sp);
        lemma_number_shifts_concat(a + c2 + sp, c3);
        lemma_number_shifts_concat(a + c2 + sp + c3, cm);
        lemma_number_shifts_concat(a + c2 + sp + c3 + cm, c4);
        lemma_number_shifts_concat(a + c2 + sp + c3 + cm + c4, z);
        assert(arc_pieces(ns, sh) == a + c2 + sp + c3 + cm + c4 + z);
        assert(number_shifts(arc_pieces(ns, sh)) =~= seq![false, false, sh, false]);
    }
}

/// Absolute commands move their x coordinates by the offset and relative
/// ones do not: the numbers that `M`, `L`, `T`, `C`, `Q` and `S` read are
/// x, y pairs with every x shifted and no y shifted; the number `H` reads is
/// an x and shifted; of the numbers of an `A` arc only the end point's x is
/// shifted; every other command (relative ones, `V`, `Z`, unknown letters)
/// shifts nothing.
pub proof fn lemma_absolute_x_shifted(cmd: char, r: Seq<char>)
    ensures
        ({
            let fl = number_shifts(command_spec(cmd, r).0);
            &&& (cmd == 'M' || cmd == 'L' || cmd == 'T' || cmd == 'C' || cmd == 'Q' || cmd == 'S')
                ==> pair_flags(fl, true)
            &&& cmd == 'H' ==> forall|i: int| 0 <= i < fl.len() ==> #[trigger] fl[i]
            &&& cmd == 'A' ==> (fl.len() == 0 || fl == seq![false, false, true, false])
            &&& !(cmd == 'M' || cmd == 'L' || cmd == 'T' || cmd == 'C' || cmd == 'Q' || cmd == 'S'
                || cmd == 'H' || cmd == 'A') ==> forall|i: int| 0 <= i < fl.len() ==> !#[trigger] fl[i]
        }),
{
    lemma_pair_shifts(r, true);
    lemma_pair_shifts(r, false);
    lemma_pair_group_shifts(r, true, 0, 3);
    lemma_pair_group_shifts(r, false, 0, 3);
    lemma_pair_group_shifts(r, true, 0, 2);
    lemma_pair_group_shifts(r, false, 0, 2);
    lemma_arc_shifts(r, true);
    lemma_arc_shifts(r, false);
    let st = single_spec(r, true).0;
    let sf = single_spec(r, false).0;
    if st.len() > 0 {
        assert(st.drop_last() =~= Seq::<PieceView>::empty());
    }
    if sf.len() > 0 {
        assert(sf.drop_last() =~= Seq::<PieceView>::empty());
    }
    assert(number_shifts(Seq::<PieceView>::empty()) =~= Seq::<bool>::empty());
}

// ---------------------------------------------------------------------------
// Executable path-data transformation
// ---------------------------------------------------------------------------

fn sep_count(v: &Vec<char>, pos: usize) -> (n: usize)
    requires
        pos <= v.len(),
    ensures
        n == sep_prefix(v@.skip(pos as int)),
        pos + n <= v.len(),
{
    let mut i: usize = pos;
    while i < v.len() && (is_whitespace(v[i]) || v[i] == ',')
        invariant
            pos <= i <= v.len(),
            sep_prefix(v@.skip(pos as int)) == (i - pos) + sep_prefix(v@.skip(i as int)),
        decreases v.len() - i,
    {
        assert(v@.skip(i as int).drop_first() =~= v@.skip(i + 1));
        i += 1;
    }
    i - pos
}

fn digit_count(v: &Vec<char>, pos: usize) -> (n: usize)
    requires
        pos <= v.len(),
    ensures
        n == digit_prefix(v@.skip(pos as int)),
        pos + n <= v.len(),
{
    let mut i: usize = pos;
    while i < v.len() && '0' <= v[i] && v[i] <= '9'
        invariant
            pos <= i <= v.len(),
            digit_prefix(v@.skip(pos as int)) == (i - pos) + digit_prefix(v@.skip(i as int)),
        decreases v.len() - i,
    {
        assert(v@.skip(i as int).drop_first() =~= v@.skip(i + 1));
        i += 1;
    }
    i - pos
}

fn sign_at(v: &Vec<char>, pos: usize) -> (n: usize)
    requires
        pos <= v.len(),
    ensures
        n == sign_len(v@.skip(pos as int)),
        pos + n <= v.len(),
{
    if pos < v.len() && (v[pos] == '-' || v[pos] == '+') {
        1
    } else {
        0
    }
}

fn lex_number_exec(v: &Vec<char>, pos: usize) -> (r: (usize, bool))
    requires
        pos <= v.len(),
    ensures
        r.0 == lex_number(v@.skip(pos as int)).0,
        r.1 == lex_number(v@.skip(pos as int)).1,
        pos + r.0 <= v.len(),
{
    let ghost t = v@.skip(pos as int);
    let p1 = sign_at(v, pos);
    assert(t.skip(p1 as int) =~= v@.skip(pos + p1));
    let d1 = digit_count(v, pos + p1);
    let p2 = p1 + d1;
    let dot = pos + p2 < v.len() && v[pos + p2] == '.';
    let d2 = if dot {
        assert(t.skip(p2 + 1 as int) =~= v@.skip(pos + p2 + 1));
        digit_count(v, pos + p2 + 1)
    } else {
        0
    };
    let p3 = if dot {
        p2 + 1 + d2
    } else {
        p2
    };
    let e = pos + p3 < v.len() && (v[pos + p3] == 'e' || v[pos + p3] == 'E');
    let p4 = if e {
        assert(t.skip(p3 + 1 as int) =~= v@.skip(pos + p3 + 1));
        p3 + 1 + sign_at(v, pos + p3 + 1)
    } else {
        p3
    };
    let d3 = if e {
        assert(t.skip(p4 as int) =~= v@.skip(pos + p4));
        digit_count(v, pos + p4)
    } else {
        0
    };
    let len = if e {
        p4 + d3
    } else {
        p3
    };
    (len, d1 + d2 > 0 && (!e || d3 > 0))
}

fn read_number_exec(v: &Vec<char>, pos: usize) -> (r: (Option<(usize, usize)>, usize))
    requires
        pos <= v.len(),
    ensures
        r.1 == read_number_spec(v@.skip(pos as int)).1,
        pos + r.1 <= v.len(),
        match r.0 {
            Some((a, b)) => a <= b <= v.len() && read_number_spec(v@.skip(pos as int)).0 == Some(
                v@.subrange(a as int, b as int),
            ),
            None => read_number_spec(v@.skip(pos as int)).0 is None,
        },
{
    let ghost r0 = v@.skip(pos as int);
    let k = sep_count(v, pos);
    assert(r0.skip(k as int) =~= v@.skip(pos + k));
    let (n, ok) = lex_number_exec(v, pos + k);
    if ok {
        assert(v@.skip(pos + k).take(n as int) =~= v@.subrange(pos + k, pos + k + n));
        (Some((pos + k, pos + k + n)), k + n)
    } else {
        (None, k + n)
    }
}

fn push_piece(out: &mut Vec<PathPiece>, p: PathPiece)
    ensures
        pieces_view(final(out)@) == pieces_view(old(out)@).push(piece_view(p)),
{
    let ghost before = out@;
    out.push(p);
    assert(pieces_view(out@) =~= pieces_view(before).push(piece_view(p)));
}

fn push_number(out: &mut Vec<PathPiece>, v: &Vec<char>, a: usize, b: usize, shift: bool)
    requires
        a <= b <= v.len(),
    ensures
        pieces_view(final(out)@) == pieces_view(old(out)@).push(
            PieceView::Number(v@.subrange(a as int, b as int), shift),
        ),
{
    let t = copy_range(v, a, b);
    let text = string_of(&t);
    push_piece(out, PathPiece::Number { text, shift });
}

fn pair_exec(v: &Vec<char>, pos: usize, shift: bool, out: &mut Vec<PathPiece>) -> (n: usize)
    requires
        pos <= v.len(),
    ensures
        n == pair_spec(v@.skip(pos as int), shift).1,
        pos + n <= v.len(),
        pieces_view(final(out)@) == pieces_view(old(out)@) + pair_spec(
            v@.skip(pos as int),
            shift,
        ).0,
{
    let ghost r = v@.skip(pos as int);
    let ghost o0 = pieces_view(out@);
    let (ox, n1) = read_number_exec(v, pos);
    match ox {
        None => {
            assert(o0 + Seq::<PieceView>::empty() =~= o0);
            n1
        },
        Some((xa, xb)) => {
            assert(r.skip(n1 as int) =~= v@.skip(pos + n1));
            let k = sep_count(v, pos + n1);
            assert(v@.skip(pos + n1).skip(k as int) =~= v@.skip(pos + n1 + k));
            let (oy, n2) = read_number_exec(v, pos + n1 + k);
            match oy {
                None => {
                    assert(o0 + Seq::<PieceView>::empty() =~= o0);
                    n1 + k + n2
                },
                Some((ya, yb)) => {
                    push_number(out, v, xa, xb, shift);
                    push_piece(out, PathPiece::Kept(','));
                    push_number(out, v, ya, yb, false);
                    assert(pieces_view(out@) =~= o0 + seq![
                        PieceView::Number(v@.subrange(xa as int, xb as int), shift),
                        PieceView::Kept(','),
                        PieceView::Number(v@.subrange(ya as int, yb as int), false),
                    ]);
                    n1 + k + n2
                },
            }
        },
    }
}

/// One round of a curve command's pairs, at `p`.
#[verifier::spinoff_prover]
#[verifier::rlimit(60)]
fn group_round(
    v: &Vec<char>,
    p: usize,
    shift: bool,
    i: usize,
    count: usize,
    out: &mut Vec<PathPiece>,
) -> (np: usize)
    requires
        p <= v.len(),
        i < count,
    ensures
        p <= np <= v.len(),
        pieces_view(final(out)@) + pair_group(v@.skip(np as int), shift, (i + 1) as nat, count as nat).0
            == pieces_view(old(out)@) + pair_group(v@.skip(p as int), shift, i as nat, count as nat).0,
        (np - p) + pair_group(v@.skip(np as int), shift, (i + 1) as nat, count as nat).1 == pair_group(
            v@.skip(p as int),
            shift,
            i as nat,
            count as nat,
        ).1,
{
    let ghost r = v@.skip(p as int);
    let ghost before = pieces_view(out@);
    let ghost g = pair_group(r, shift, i as nat, count as nat);
    if i > 0 {
        push_piece(out, PathPiece::Kept(' '));
    }
    let ghost after_lead = pieces_view(out@);
    let n = pair_exec(v, p, shift, out);
    assert(r.skip(n as int) =~= v@.skip(p + n));
    let k = sep_count(v, p + n);
    assert(v@.skip(p + n).skip(k as int) =~= v@.skip(p + n + k));
    let ghost rest = pair_group(v@.skip(p + n + k), shift, (i + 1) as nat, count as nat);
    let ghost lead = if i > 0 {
        seq![PieceView::Kept(' ')]
    } else {
        Seq::<PieceView>::empty()
    };
    assert(after_lead =~= before + lead);
    assert(g.0 == lead + pair_spec(r, shift).0 + rest.0);
    assert(pieces_view(out@) + rest.0 =~= before + g.0);
    p + n + k
}

fn pair_group_exec(
    v: &Vec<char>,
    pos: usize,
    shift: bool,
    count: usize,
    out: &mut Vec<PathPiece>,
) -> (n: usize)
    requires
        pos <= v.len(),
    ensures
        n == pair_group(v@.skip(pos as int), shift, 0, count as nat).1,
        pos + n <= v.len(),
        pieces_view(final(out)@) == pieces_view(old(out)@) + pair_group(
            v@.skip(pos as int),
            shift,
            0,
            count as nat,
        ).0,
{
    let ghost r0 = v@.skip(pos as int);
    let ghost o0 = pieces_view(out@);
    let ghost total = pair_group(r0, shift, 0, count as nat);
    let mut p: usize = pos;
    let mut i: usize = 0;
    while i < count
        invariant
            pos <= p <= v.len(),
            i <= count,
            pieces_view(out@) + pair_group(v@.skip(p as int), shift, i as nat, count as nat).0 == o0
                + total.0,
            (p - pos) + pair_group(v@.skip(p as int), shift, i as nat, count as nat).1 == total.1,
        decreases count - i,
    {
        p = group_round(v, p, shift, i, count, out);
        i += 1;
    }
    assert(pair_group(v@.skip(p as int), shift, count as nat, count as nat).0 =~= Seq::<
        PieceView,
    >::empty());
    assert(pieces_view(out@) + Seq::<PieceView>::empty() =~= pieces_view(out@));
    p - pos
}

fn single_exec(v: &Vec<char>, pos: usize, shift: bool, out: &mut Vec<PathPiece>) -> (n: usize)
    requires
        pos <= v.len(),
    ensures
        n == single_spec(v@.skip(pos as int), shift).1,
        pos + n <= v.len(),
        pieces_view(final(out)@) == pieces_view(old(out)@) + single_spec(
            v@.skip(pos as int),
            shift,
        ).0,
{
    let ghost o0 = pieces_view(out@);
    let (o, n) = read_number_exec(v, pos);
    match o {
        Some((a, b)) => {
            push_number(out, v, a, b, shift);
            assert(pieces_view(out@) =~= o0 + seq![
                PieceView::Number(v@.subrange(a as int, b as int), shift),
            ]);
        },
        None => {
            assert(o0 + Seq::<PieceView>::empty() =~= o0);
        },
    }
    n
}

/// The results of reading numbers, after `c` characters that gave the
/// texts `got`.
pub open spec fn with_prefix(
    got: Seq<Seq<char>>,
    c: nat,
    rest: (Option<Seq<Seq<char>>>, nat),
) -> (Option<Seq<Seq<char>>>, nat) {
    (
        match rest.0 {
            Some(ns) => Some(got + ns),
            None => None,
        },
        c + rest.1,
    )
}

fn push_kept_range(out: &mut Vec<PathPiece>, v: &Vec<char>, a: usize, b: usize)
    requires
        a <= b <= v.len(),
    ensures
        pieces_view(final(out)@) == pieces_view(old(out)@) + char_pieces(
            v@.subrange(a as int, b as int),
        ),
{
    let ghost o0 = pieces_view(out@);
    let mut i: usize = a;
    assert(v@.subrange(a as int, a as int) =~= Seq::<char>::empty());
    assert(o0 + char_pieces(Seq::<char>::empty()) =~= o0);
    while i < b
        invariant
            a <= i <= b <= v.len(),
            pieces_view(out@) == o0 + char_pieces(v@.subrange(a as int, i as int)),
        decreases b - i,
    {
        push_piece(out, PathPiece::Kept(v[i]));
        assert(char_pieces(v@.subrange(a as int, i + 1)) =~= char_pieces(
            v@.subrange(a as int, i as int),
        ).push(kept(v@[i as int])));
        assert(pieces_view(out@) =~= o0 + char_pieces(v@.subrange(a as int, i + 1)));
        i += 1;
    }
}

#[verifier::spinoff_prover]
#[verifier::rlimit(40)]
fn arc_exec(v: &Vec<char>, pos: usize, shift: bool, out: &mut Vec<PathPiece>) -> (n: usize)
    requires
        pos <= v.len(),
    ensures
        n == arc_spec(v@.skip(pos as int), shift).1,
        pos + n <= v.len(),
        pieces_view(final(out)@) == pieces_view(old(out)@) + arc_spec(
            v@.skip(pos as int),
            shift,
        ).0,
{
    let ghost r0 = v@.skip(pos as int);
    let ghost o0 = pieces_view(out@);
    let mut bounds: Vec<(usize, usize)> = Vec::new();
    let mut q: usize = pos;
    let mut i: usize = 0;
    while i < 7
        invariant
            pos <= q <= v.len(),
            i <= 7,
            bounds.len() == i,
            r0 == v@.skip(pos as int),
            o0 == pieces_view(out@),
            forall|j: int| 0 <= j < i ==> (#[trigger] bounds@[j]).0 <= bounds@[j].1 <= v.len(),
            read_numbers(r0, 7) == with_prefix(
                bounds@.map_values(|p: (usize, usize)| v@.subrange(p.0 as int, p.1 as int)),
                (q - pos) as nat,
                read_numbers(v@.skip(q as int), (7 - i) as nat),
            ),
        decreases 7 - i,
    {
        let ghost got = bounds@.map_values(|p: (usize, usize)| v@.subrange(p.0 as int, p.1 as int));
        let (o, k) = read_number_exec(v, q);
        match o {
            None => {
                assert(o0 + Seq::<PieceView>::empty() =~= o0);
                return q + k - pos;
            },
            Some((a, b)) => {
                let ghost x = v@.subrange(a as int, b as int);
                assert(v@.skip(q as int).skip(k as int) =~= v@.skip(q + k));
                bounds.push((a, b));
                assert(bounds@.map_values(|p: (usize, usize)| v@.subrange(p.0 as int, p.1 as int))
                    =~= got.push(x));
                proof {
                    let rest = read_numbers(v@.skip(q + k), (7 - i - 1) as nat);
                    if let Some(ns) = rest.0 {
                        assert(got + (seq![x] + ns) =~= got.push(x) + ns);
                    }
                }
                q = q + k;
                i += 1;
            },
        }
    }
    let ghost ns = bounds@.map_values(|p: (usize, usize)| v@.subrange(p.0 as int, p.1 as int));
    assert(ns + Seq::<Seq<char>>::empty() =~= ns);
    assert(read_numbers(r0, 7) == (Some(ns), (q - pos) as nat));
    let b0 = bounds[0];
    let b1 = bounds[1];
    let b2 = bounds[2];
    let b3 = bounds[3];
    let b4 = bounds[4];
    let b5 = bounds[5];
    let b6 = bounds[6];
    push_number(out, v, b0.0, b0.1, false);
    push_piece(out, PathPiece::Kept(','));
    push_number(out, v, b1.0, b1.1, false);
    push_piece(out, PathPiece::Kept(' '));
    push_kept_range(out, v, b2.0, b2.1);
    push_piece(out, PathPiece::Kept(' '));
    push_kept_range(out, v, b3.0, b3.1);
    push_piece(out, PathPiece::Kept(','));
    push_kept_range(out, v, b4.0, b4.1);
    push_piece(out, PathPiece::Kept(' '));
    push_number(out, v, b5.0, b5.1, shift);
    push_piece(out, PathPiece::Kept(','));
    push_number(out, v, b6.0, b6.1, false);
    assert(pieces_view(out@) =~= o0 + arc_pieces(ns, shift));
    q - pos
}

fn command_exec(cmd: char, v: &Vec<char>, pos: usize, out: &mut Vec<PathPiece>) -> (n: usize)
    requires
        pos <= v.len(),
    ensures
        n == command_spec(cmd, v@.skip(pos as int)).1,
        pos + n <= v.len(),
        pieces_view(final(out)@) == pieces_view(old(out)@) + command_spec(
            cmd,
            v@.skip(pos as int),
        ).0,
{
    if cmd == 'M' || cmd == 'L' || cmd == 'T' {
        pair_exec(v, pos, true, out)
    } else if cmd == 'm' || cmd == 'l' || cmd == 't' {
        pair_exec(v, pos, false, out)
    } else if cmd == 'C' {
        pair_group_exec(v, pos, true, 3, out)
    } else if cmd == 'c' {
        pair_group_exec(v, pos, false, 3, out)
    } else if cmd == 'Q' || cmd == 'S' {
        pair_group_exec(v, pos, true, 2, out)
    } else if cmd == 'q' || cmd == 's' {
        pair_group_exec(v, pos, false, 2, out)
    } else if cmd == 'H' {
        single_exec(v, pos, true, out)
    } else if cmd == 'h' || cmd == 'V' || cmd == 'v' {
        single_exec(v, pos, false, out)
    } else if cmd == 'A' {
        arc_exec(v, pos, true, out)
    } else if cmd == 'a' {
        arc_exec(v, pos, false, out)
    } else if cmd == 'Z' || cmd == 'z' {
        assert(pieces_view(out@) + Seq::<PieceView>::empty() =~= pieces_view(out@));
        0
    } else {
        single_exec(v, pos, false, out)
    }
}

/// One round of the loop at `pos`: gives the characters consumed and the
/// command after it.
#[verifier::spinoff_prover]
#[verifier::rlimit(30)]
fn step_exec(v: &Vec<char>, pos: usize, cmd: char, out: &mut Vec<PathPiece>) -> (r: (usize, char))
    requires
        pos <= v.len(),
    ensures
        r.0 == path_step(v@.skip(pos as int), cmd).1,
        r.1 == path_step(v@.skip(pos as int), cmd).2,
        pos + r.0 <= v.len(),
        pieces_view(final(out)@) == pieces_view(old(out)@) + path_step(
            v@.skip(pos as int),
            cmd,
        ).0,
{
    reveal(path_step);
    let ghost rest = v@.skip(pos as int);
    let ghost o0 = pieces_view(out@);
    let k = sep_count(v, pos);
    let mut j: usize = pos;
    assert(char_pieces(v@.subrange(pos as int, pos as int)) =~= Seq::<PieceView>::empty());
    assert(o0 + Seq::<PieceView>::empty() =~= o0);
    while j < pos + k
        invariant
            pos <= j <= pos + k <= v.len(),
            pieces_view(out@) == o0 + char_pieces(v@.subrange(pos as int, j as int)),
        decreases pos + k - j,
    {
        let ghost b = pieces_view(out@);
        push_piece(out, PathPiece::Kept(v[j]));
        let ghost s1 = v@.subrange(pos as int, j + 1);
        let ghost s0 = v@.subrange(pos as int, j as int);
        assert(s1 =~= s0.push(v@[j as int]));
        assert(char_pieces(s1) =~= char_pieces(s0).push(kept(v@[j as int])));
        assert(pieces_view(out@) =~= o0 + char_pieces(s1));
        j += 1;
    }
    assert(v@.subrange(pos as int, (pos + k) as int) =~= rest.take(k as int));
    let p1 = pos + k;
    assert(rest.skip(k as int) =~= v@.skip(p1 as int));
    if p1 < v.len() && (('A' <= v[p1] && v[p1] <= 'Z') || ('a' <= v[p1] && v[p1] <= 'z')) {
        let c = v[p1];
        push_piece(out, PathPiece::Kept(c));
        (k + 1, c)
    } else if p1 == v.len() {
        assert(pieces_view(out@) =~= o0 + char_pieces(rest.take(k as int)));
        (k, cmd)
    } else {
        let ghost mid = pieces_view(out@);
        let n = command_exec(cmd, v, p1, out);
        assert(pieces_view(out@) =~= o0 + (char_pieces(rest.take(k as int)) + command_spec(
            cmd,
            v@.skip(p1 as int),
        ).0));
        (k + n, cmd)
    }
}

proof fn lemma_plan_step(rest: Seq<char>, cmd: char)
    requires
        rest.len() > 0,
        0 < path_step(rest, cmd).1 <= rest.len(),
    ensures
        path_plan(rest, cmd) == match path_plan(
            rest.skip(path_step(rest, cmd).1 as int),
            path_step(rest, cmd).2,
        ) {
            Some(p) => Some(path_step(rest, cmd).0 + p),
            None => None,
        },
{
}

/// The pieces of transformed path data (`d` attribute): characters kept
/// and numbers to move; `None` when the path data holds a character that the
/// loop would never get past.
pub fn path_data_pieces(d: &str) -> (r: Option<Vec<PathPiece>>)
    ensures
        match r {
            Some(p) => path_data_spec(d@) == Some(pieces_view(p@)),
            None => path_data_spec(d@) is None,
        },
{
    let v = chars_of(d);
    let mut out: Vec<PathPiece> = Vec::new();
    let mut pos: usize = 0;
    let mut cmd: char = ' ';
    assert(v@.skip(0) =~= v@);
    assert(pieces_view(out@) =~= Seq::<PieceView>::empty());
    while pos < v.len()
        invariant
            pos <= v.len(),
            v@ == d@,
            path_data_spec(d@) == match path_plan(v@.skip(pos as int), cmd) {
                Some(p) => Some(pieces_view(out@) + p),
                None => None,
            },
        decreases v.len() - pos,
    {
        let ghost rest = v@.skip(pos as int);
        let ghost o0 = pieces_view(out@);
        let (n, c) = step_exec(&v, pos, cmd, &mut out);
        if n == 0 {
            return None;
        }
        assert(rest.skip(n as int) =~= v@.skip(pos + n));
        proof {
            lemma_plan_step(rest, cmd);
            match path_plan(v@.skip(pos + n), c) {
                Some(p) => {
                    assert(o0 + (path_step(rest, cmd).0 + p) =~= pieces_view(out@) + p);
                },
                None => {},
            }
        }
        pos = pos + n;
        cmd = c;
    }
    assert(v@.skip(pos as int) =~= Seq::<char>::empty());
    assert(pieces_view(out@) + Seq::<PieceView>::empty() =~= pieces_view(out@));
    Some(out)
}

} // verus!

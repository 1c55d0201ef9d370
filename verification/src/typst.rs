use vstd::prelude::*;

use crate::markdown::{
    escaped_ok, lemma_emphasis_no_star, lemma_escape_escaped_ok, lemma_escape_no_star,
    lemma_escape_read_back, typst_literal,
    emphasis_chars, escape_chars, escape_spec, inline_chars, inline_spec, ordered_item_spec,
    ordered_item_start, typst_emphasis_spec,
};
use crate::text::{
    chars_of, copy_range, extend_chars, extend_str, has_prefix, is_ws, lemma_ws_prefix_bound,
    lemma_ws_suffix_bound, lines_of, trim_start, ws_suffix,
    push_chars, push_str, range_is, split_lines, starts_with, trim, trim_bounds, utf8_len,
    utf8_len_seq, ws_prefix, ws_prefix_count,
};

verus! {

/// Document format/layout preset of a pushed document.
#[derive(Debug, Clone, Copy, PartialEq, Eq, Structural)]
pub enum PushFormat {
    /// 11pt, A4, 2cm margins, justified (standard)
    Default,
    /// 12pt, no justification, 2.5cm margins for annotation space
    Recipe,
    /// 11pt, scannable layout, clear headings, bullet points
    Briefing,
    /// 12pt, checkbox grid layout with empty rows for handwritten additions
    Tasks,
}

/// Page, text and paragraph settings of the default format.
pub const DEFAULT_PREAMBLE: &'static str = r#"#set page(
  paper: "a4",
  margin: (x: 2cm, y: 2cm),
)
#set text(
  font: "New Computer Modern",
  size: 11pt,
)
#set par(
  justify: true,
  leading: 0.65em,
)
#set heading(numbering: none)

"#;

/// Page, text and paragraph settings of the recipe format.
pub const RECIPE_PREAMBLE: &'static str = r#"#set page(
  paper: "a4",
  margin: (x: 2.5cm, y: 2.5cm),
)
#set text(
  font: "New Computer Modern",
  size: 12pt,
)
#set par(
  justify: false,
  leading: 0.75em,
)
#set heading(numbering: none)

"#;

/// Page, text and paragraph settings of the briefing format.
pub const BRIEFING_PREAMBLE: &'static str = r#"#set page(
  paper: "a4",
  margin: (x: 2cm, y: 2cm),
)
#set text(
  font: "New Computer Modern",
  size: 11pt,
)
#set par(
  justify: false,
  leading: 0.7em,
)
#set heading(numbering: none)
#show heading.where(level: 1): set text(size: 16pt)
#show heading.where(level: 2): set text(size: 13pt)

"#;

/// Page settings and checkbox helpers of the tasks format.
pub const TASKS_PREAMBLE: &'static str = r#"#set page(
  paper: "a4",
  margin: (x: 2cm, y: 2cm),
)
#set text(
  font: "New Computer Modern",
  size: 12pt,
)
#set par(
  justify: false,
  leading: 0.7em,
)
#set heading(numbering: none)

// Checkbox helper functions
#let checkbox-empty = box(
  width: 0.9em,
  height: 0.9em,
  stroke: 0.8pt + black,
  radius: 1pt,
  inset: 0pt,
)

#let checkbox-checked = box(
  width: 0.9em,
  height: 0.9em,
  stroke: 0.8pt + black,
  radius: 1pt,
  inset: 0pt,
  align(center + horizon, text(size: 0.7em, weight: "bold")[X])
)

#let task(checked, body) = {
  grid(
    columns: (1.5em, 1fr),
    column-gutter: 0.5em,
    row-gutter: 0.4em,
    align(center + top, if checked { checkbox-checked } else { checkbox-empty }),
    if checked { strike(body) } else { body },
  )
}

#let subtask(checked, body) = {
  grid(
    columns: (1.5em, 1.5em, 1fr),
    column-gutter: 0.5em,
    row-gutter: 0.4em,
    [],
    align(center + top, if checked { checkbox-checked } else { checkbox-empty }),
    if checked { strike(body) } else { body },
  )
}

#let empty-row = {
  grid(
    columns: (1.5em, 1fr),
    column-gutter: 0.5em,
    row-gutter: 0.4em,
    align(center + top, checkbox-empty),
    line(length: 100%, stroke: 0.3pt + luma(200)),
  )
}

"#;

/// The setup block that a format puts before the document body (the tasks
/// format has its own, which `markdown_to_typst_tasks` writes).
pub open spec fn preamble_spec(format: PushFormat) -> Seq<char> {
    match format {
        PushFormat::Default => DEFAULT_PREAMBLE@,
        PushFormat::Recipe => RECIPE_PREAMBLE@,
        PushFormat::Briefing => BRIEFING_PREAMBLE@,
        PushFormat::Tasks => seq![],
    }
}

/// Generate the Typst page/text/par setup block for a given format.
pub fn format_preamble(format: &PushFormat) -> (r: String)
    ensures
        r@ == preamble_spec(*format),
{
    let mut r = String::new();
    match format {
        PushFormat::Default => push_str(&mut r, DEFAULT_PREAMBLE),
        PushFormat::Recipe => push_str(&mut r, RECIPE_PREAMBLE),
        PushFormat::Briefing => push_str(&mut r, BRIEFING_PREAMBLE),
        PushFormat::Tasks => {},
    }
    r
}

// ---------------------------------------------------------------------------
// Markdown documents
// ---------------------------------------------------------------------------

/// The number of leading backticks of `s`.
pub open spec fn backtick_prefix(s: Seq<char>) -> nat
    decreases s.len(),
{
    if s.len() > 0 && s[0] == '`' {
        1 + backtick_prefix(s.drop_first())
    } else {
        0
    }
}

/// The language named after an opening code fence.
pub open spec fn fence_lang(line: Seq<char>) -> Seq<char> {
    trim(line.skip(backtick_prefix(line) as int))
}

/// A horizontal rule.
pub open spec fn is_rule(t: Seq<char>) -> bool {
    t == "---"@ || t == "***"@ || t == "___"@
}

/// A heading with the given Typst marker.
pub open spec fn heading_spec(marker: Seq<char>, text: Seq<char>) -> Seq<char> {
    marker + escape_spec(text) + "\n\n"@
}

/// The Typst markup of a markdown line outside a code block.
pub open spec fn md_text_line(line: Seq<char>) -> Seq<char> {
    if starts_with(line, "# "@) {
        heading_spec("= "@, line.skip(2))
    } else if starts_with(line, "## "@) {
        heading_spec("== "@, line.skip(3))
    } else if starts_with(line, "### "@) {
        heading_spec("=== "@, line.skip(4))
    } else if starts_with(line, "#### "@) {
        heading_spec("==== "@, line.skip(5))
    } else if is_rule(trim(line)) {
        "#line(length: 100%)\n\n"@
    } else if starts_with(line, "- "@) || starts_with(line, "* "@) {
        "- "@ + inline_spec(line.skip(2)) + "\n"@
    } else if ordered_item_spec(line) is Some {
        "+ "@ + inline_spec(ordered_item_spec(line)->0) + "\n"@
    } else if starts_with(line, "> "@) {
        "#quote["@ + inline_spec(line.skip(2)) + "]\n\n"@
    } else if trim(line).len() == 0 {
        "\n"@
    } else {
        inline_spec(line) + "\n"@
    }
}

/// A line whose second character is a space is no horizontal rule.
proof fn lemma_not_rule(line: Seq<char>)
    requires
        line.len() >= 2,
        !is_ws(line[0]),
        line[1] == ' ',
    ensures
        !is_rule(trim(line)),
{
    reveal_strlit("---");
    reveal_strlit("***");
    reveal_strlit("___");
    lemma_ws_prefix_bound(line);
    assert(trim_start(line) =~= line);
    lemma_ws_suffix_bound(line);
    let t = trim(line);
    if t.len() >= 2 {
        assert(t[1] == ' ');
    }
}

/// A bullet item, written with `- ` or with `* `, outside a code block,
/// becomes a Typst list item of its text with inline formatting.
pub proof fn lemma_bullet_items(t: Seq<char>)
    ensures
        md_step(false, "- "@ + t) == ("- "@ + inline_spec(t) + "\n"@, false),
        md_step(false, "* "@ + t) == ("- "@ + inline_spec(t) + "\n"@, false),
{
    reveal_strlit("- ");
    reveal_strlit("* ");
    reveal_strlit("```");
    reveal_strlit("# ");
    reveal_strlit("## ");
    reveal_strlit("### ");
    reveal_strlit("#### ");
    let a = "- "@ + t;
    let b = "* "@ + t;
    assert(a[0] == '-' && a[1] == ' ' && b[0] == '*' && b[1] == ' ');
    lemma_not_rule(a);
    lemma_not_rule(b);
    assert(!starts_with(a, "```"@)) by {
        if starts_with(a, "```"@) {
            assert(a.take(3)[0] == '`');
        }
    }
    assert(!starts_with(b, "```"@)) by {
        if starts_with(b, "```"@) {
            assert(b.take(3)[0] == '`');
        }
    }
    assert(!starts_with(a, "# "@) && !starts_with(a, "## "@) && !starts_with(a, "### "@)
        && !starts_with(a, "#### "@)) by {
        if starts_with(a, "# "@) {
            assert(a.take(2)[0] == '#');
        }
        if starts_with(a, "## "@) {
            assert(a.take(3)[0] == '#');
        }
        if starts_with(a, "### "@) {
            assert(a.take(4)[0] == '#');
        }
        if starts_with(a, "#### "@) {
            assert(a.take(5)[0] == '#');
        }
    }
    assert(!starts_with(b, "# "@) && !starts_with(b, "## "@) && !starts_with(b, "### "@)
        && !starts_with(b, "#### "@)) by {
        if starts_with(b, "# "@) {
            assert(b.take(2)[0] == '#');
        }
        if starts_with(b, "## "@) {
            assert(b.take(3)[0] == '#');
        }
        if starts_with(b, "### "@) {
            assert(b.take(4)[0] == '#');
        }
        if starts_with(b, "#### "@) {
            assert(b.take(5)[0] == '#');
        }
    }
    assert(a.take(2) =~= "- "@);
    assert(b.take(2) =~= "* "@);
    assert(a.skip(2) =~= t);
    assert(b.skip(2) =~= t);
}

/// What one line contributes, and whether a code block is open after it,
/// given whether one was open before it.
pub open spec fn md_step(in_code: bool, line: Seq<char>) -> (Seq<char>, bool) {
    if starts_with(line, "```"@) {
        if in_code {
            ("```\n\n"@, false)
        } else if fence_lang(line).len() == 0 {
            ("```\n"@, true)
        } else {
            ("```"@ + fence_lang(line) + "\n"@, true)
        }
    } else if in_code {
        (line + "\n"@, true)
    } else {
        (md_text_line(line), false)
    }
}

/// The Typst markup of a sequence of markdown lines, and whether a code block
/// is open at its end.
pub open spec fn md_fold(lines: Seq<Seq<char>>) -> (Seq<char>, bool)
    decreases lines.len(),
{
    if lines.len() == 0 {
        (seq![], false)
    } else {
        let prev = md_fold(lines.drop_last());
        let step = md_step(prev.1, lines.last());
        (prev.0 + step.0, step.1)
    }
}

/// A markdown document in Typst markup with a format's settings.
pub open spec fn markdown_to_typst_spec(md: Seq<char>, format: PushFormat) -> Seq<char> {
    preamble_spec(format) + md_fold(lines_of(md)).0
}

/// The number of leading backticks of `v`.
fn backtick_count(v: &Vec<char>) -> (n: usize)
    ensures
        n == backtick_prefix(v@),
        n <= v.len(),
{
    let mut i: usize = 0;
    assert(v@.skip(0) =~= v@);
    while i < v.len() && v[i] == '`'
        invariant
            i <= v.len(),
            backtick_prefix(v@) == i + backtick_prefix(v@.skip(i as int)),
        decreases v.len() - i,
    {
        assert(v@.skip(i as int).drop_first() =~= v@.skip(i + 1));
        i += 1;
    }
    i
}

fn heading_out(v: &Vec<char>, k: usize, marker: &str) -> (o: Vec<char>)
    requires
        k <= v.len(),
    ensures
        o@ == heading_spec(marker@, v@.skip(k as int)),
{
    let mut o = chars_of(marker);
    let t = copy_range(v, k, v.len());
    assert(t@ =~= v@.skip(k as int));
    let e = escape_chars(&t);
    extend_chars(&mut o, &e);
    extend_str(&mut o, "\n\n");
    o
}

/// `prefix`, the inline markup of `v[k..]`, then `suffix`.
fn inline_out(v: &Vec<char>, k: usize, prefix: &str, suffix: &str) -> (o: Vec<char>)
    requires
        k <= v.len(),
    ensures
        o@ == prefix@ + inline_spec(v@.skip(k as int)) + suffix@,
{
    let mut o = chars_of(prefix);
    let t = copy_range(v, k, v.len());
    assert(t@ =~= v@.skip(k as int));
    let e = inline_chars(&t);
    extend_chars(&mut o, &e);
    extend_str(&mut o, suffix);
    o
}

fn md_text(line: &Vec<char>) -> (o: Vec<char>)
    ensures
        o@ == md_text_line(line@),
{
    proof {
        reveal_strlit("# ");
        reveal_strlit("## ");
        reveal_strlit("### ");
        reveal_strlit("#### ");
        reveal_strlit("- ");
        reveal_strlit("* ");
        reveal_strlit("> ");
    }
    if has_prefix(line, "# ") {
        return heading_out(line, 2, "= ");
    }
    if has_prefix(line, "## ") {
        return heading_out(line, 3, "== ");
    }
    if has_prefix(line, "### ") {
        return heading_out(line, 4, "=== ");
    }
    if has_prefix(line, "#### ") {
        return heading_out(line, 5, "==== ");
    }
    let (x, y) = trim_bounds(line);
    if range_is(line, x, y, "---") || range_is(line, x, y, "***") || range_is(line, x, y, "___") {
        return chars_of("#line(length: 100%)\n\n");
    }
    if has_prefix(line, "- ") || has_prefix(line, "* ") {
        return inline_out(line, 2, "- ", "\n");
    }
    if let Some(k) = ordered_item_start(line) {
        return inline_out(line, k, "+ ", "\n");
    }
    if has_prefix(line, "> ") {
        return inline_out(line, 2, "#quote[", "]\n\n");
    }
    if x == y {
        return chars_of("\n");
    }
    assert(line@.skip(0) =~= line@);
    let o = inline_out(line, 0, "", "\n");
    proof {
        reveal_strlit("");
        assert(""@ + inline_spec(line@) =~= inline_spec(line@));
    }
    o
}

fn md_line(line: &Vec<char>, in_code: bool) -> (r: (Vec<char>, bool))
    ensures
        (r.0@, r.1) == md_step(in_code, line@),
{
    if has_prefix(line, "```") {
        if in_code {
            return (chars_of("```\n\n"), false);
        }
        let b = backtick_count(line);
        let rest = copy_range(line, b, line.len());
        assert(rest@ =~= line@.skip(b as int));
        let (x, y) = trim_bounds(&rest);
        if x == y {
            return (chars_of("```\n"), true);
        }
        let mut o = chars_of("```");
        let lang = copy_range(&rest, x, y);
        extend_chars(&mut o, &lang);
        extend_str(&mut o, "\n");
        return (o, true);
    }
    if in_code {
        let mut o = copy_range(line, 0, line.len());
        assert(line@.subrange(0, line.len() as int) =~= line@);
        extend_str(&mut o, "\n");
        return (o, true);
    }
    (md_text(line), false)
}

/// Convert markdown content to Typst markup with format-specific settings.
pub fn markdown_to_typst(md: &str, format: &PushFormat) -> (r: String)
    ensures
        r@ == markdown_to_typst_spec(md@, *format),
{
    let mut out = format_preamble(format);
    let v = chars_of(md);
    let lines = split_lines(&v);
    let ghost ls = lines@.map_values(|l: Vec<char>| l@);
    let mut in_code = false;
    let mut k: usize = 0;
    assert(ls.take(0) =~= Seq::<Seq<char>>::empty());
    assert(out@ + Seq::<char>::empty() =~= out@);
    while k < lines.len()
        invariant
            k <= lines.len(),
            ls == lines@.map_values(|l: Vec<char>| l@),
            ls == lines_of(md@),
            out@ == preamble_spec(*format) + md_fold(ls.take(k as int)).0,
            in_code == md_fold(ls.take(k as int)).1,
        decreases lines.len() - k,
    {
        let (o, st) = md_line(&lines[k], in_code);
        push_chars(&mut out, &o);
        in_code = st;
        assert(ls.take(k + 1).drop_last() =~= ls.take(k as int));
        assert(ls.take(k + 1).last() == lines[k as int]@);
        assert(out@ =~= preamble_spec(*format) + md_fold(ls.take(k + 1)).0);
        k += 1;
    }
    assert(ls.take(lines.len() as int) =~= ls);
    out
}

// ---------------------------------------------------------------------------
// Task lists
// ---------------------------------------------------------------------------

/// A checkbox row (`sub` for an indented sub-task).
pub open spec fn task_item(sub: bool, checked: bool, text: Seq<char>) -> Seq<char> {
    (if sub {
        if checked {
            "#subtask(true)["@
        } else {
            "#subtask(false)["@
        }
    } else {
        if checked {
            "#task(true)["@
        } else {
            "#task(false)["@
        }
    }) + text + "]\n"@
}

/// The line is indented: its leading whitespace holds a tab or takes at
/// least two bytes.
pub open spec fn is_sub_item(line: Seq<char>) -> bool {
    utf8_len_seq(line.take(ws_prefix(line) as int)) >= 2 || line.take(
        ws_prefix(line) as int,
    ).contains('\t')
}

/// The text of a checkbox row: escaped, then bold and italic converted.
pub open spec fn task_text(s: Seq<char>) -> Seq<char> {
    typst_emphasis_spec(escape_spec(s))
}

/// The Typst markup of one line of a task list: a section heading `# X`
/// becomes `== X` (the level of the "New Tasks" heading), a checkbox item a
/// task row.
pub open spec fn task_line(line: Seq<char>) -> Seq<char> {
    let t = trim(line);
    if starts_with(t, "# "@) {
        heading_spec("== "@, t.skip(2))
    } else if starts_with(t, "## "@) {
        heading_spec("== "@, t.skip(3))
    } else if starts_with(t, "### "@) {
        heading_spec("=== "@, t.skip(4))
    } else if starts_with(t, "- [x] "@) || starts_with(t, "- [X] "@) {
        task_item(is_sub_item(line), true, task_text(t.skip(6)))
    } else if starts_with(t, "- [ ] "@) {
        task_item(is_sub_item(line), false, task_text(t.skip(6)))
    } else if starts_with(t, "- "@) {
        task_item(is_sub_item(line), false, task_text(t.skip(2)))
    } else if t.len() == 0 {
        "#v(0.3em)\n"@
    } else {
        inline_spec(t) + "\n"@
    }
}

/// The Typst markup of a sequence of task-list lines.
pub open spec fn tasks_fold(lines: Seq<Seq<char>>) -> Seq<char>
    decreases lines.len(),
{
    if lines.len() == 0 {
        seq![]
    } else {
        tasks_fold(lines.drop_last()) + task_line(lines.last())
    }
}

/// `n` empty checkbox rows.
pub open spec fn empty_rows(n: nat) -> Seq<char>
    decreases n,
{
    if n == 0 {
        seq![]
    } else {
        empty_rows((n - 1) as nat) + "#empty-row\n"@ + "#v(0.5em)\n"@
    }
}

/// The "New Tasks" section with empty rows for handwritten additions.
pub open spec fn tasks_trailer() -> Seq<char> {
    "\n#v(1em)\n"@ + "== New Tasks\n\n"@ + empty_rows(8)
}

/// A task list in Typst markup.
pub open spec fn markdown_to_typst_tasks_spec(md: Seq<char>) -> Seq<char> {
    TASKS_PREAMBLE@ + tasks_fold(lines_of(md)) + tasks_trailer()
}

/// A checkbox item `- [ ] t` (or `- [x] t`, checked) whose text has no
/// star and does not end in whitespace becomes one task row whose content
/// Typst reads back as exactly `t`, with every special character escaped.
pub proof fn lemma_task_row_reads_back(t: Seq<char>, checked: bool)
    requires
        t.len() > 0,
        !is_ws(t.last()),
        forall|i: int| 0 <= i < t.len() ==> t[i] != '*',
    ensures
        ({
            let line = (if checked {
                "- [x] "@
            } else {
                "- [ ] "@
            }) + t;
            let head = if checked {
                "#task(true)["@
            } else {
                "#task(false)["@
            };
            let out = task_line(line);
            let c = out.subrange(head.len() as int, out.len() - 2);
            &&& out.len() >= head.len() + 2
            &&& out.take(head.len() as int) == head
            &&& out.skip(out.len() - 2) == "]\n"@
            &&& typst_literal(c) == t
            &&& escaped_ok(c)
        }),
{
    reveal_strlit("- [x] ");
    reveal_strlit("- [X] ");
    reveal_strlit("- [ ] ");
    reveal_strlit("# ");
    reveal_strlit("## ");
    reveal_strlit("### ");
    reveal_strlit("#task(true)[");
    reveal_strlit("#task(false)[");
    reveal_strlit("]\n");
    let pre = if checked {
        "- [x] "@
    } else {
        "- [ ] "@
    };
    let line = pre + t;
    assert(line[0] == '-');
    assert(line.last() == t.last());
    assert(ws_prefix(line) == 0);
    assert(ws_suffix(line) == 0);
    assert(trim_start(line) =~= line);
    assert(trim(line) =~= line);
    assert(!starts_with(line, "# "@) && !starts_with(line, "## "@) && !starts_with(line, "### "@))
        by {
        if starts_with(line, "# "@) {
            assert(line.take(2)[0] == '-');
        }
        if starts_with(line, "## "@) {
            assert(line.take(3)[0] == '-');
        }
        if starts_with(line, "### "@) {
            assert(line.take(4)[0] == '-');
        }
    }
    assert(line.take(6) =~= pre);
    if checked {
        assert(starts_with(line, "- [x] "@));
    } else {
        assert(!starts_with(line, "- [x] "@)) by {
            if starts_with(line, "- [x] "@) {
                assert(line.take(6)[3] == line[3]);
            }
        }
        assert(!starts_with(line, "- [X] "@)) by {
            if starts_with(line, "- [X] "@) {
                assert(line.take(6)[3] == line[3]);
            }
        }
        assert(starts_with(line, "- [ ] "@));
    }
    assert(line.skip(6) =~= t);
    assert(line.take(0) =~= Seq::<char>::empty());
    assert(!is_sub_item(line)) by {
        assert(line.take(ws_prefix(line) as int) =~= Seq::<char>::empty());
    }
    lemma_escape_no_star(t);
    lemma_emphasis_no_star(escape_spec(t));
    lemma_escape_read_back(t);
    lemma_escape_escaped_ok(t);
    let head = if checked {
        "#task(true)["@
    } else {
        "#task(false)["@
    };
    let out = task_line(line);
    assert(out == head + escape_spec(t) + "]\n"@);
    assert(out.take(head.len() as int) =~= head);
    assert(out.skip(out.len() - 2) =~= "]\n"@);
    assert(out.subrange(head.len() as int, out.len() - 2) =~= escape_spec(t));
}

/// The number of bytes `c` takes in UTF-8.
fn char_utf8_len(c: char) -> (n: usize)
    ensures
        n == utf8_len(c),
{
    let u = c as u32;
    if u < 0x80 {
        1
    } else if u < 0x800 {
        2
    } else if u < 0x10000 {
        3
    } else {
        4
    }
}

/// `x`, or 2 if it is larger.
pub open spec fn cap2(x: nat) -> nat {
    if x >= 2 {
        2
    } else {
        x
    }
}

fn sub_item(v: &Vec<char>) -> (b: bool)
    ensures
        b == is_sub_item(v@),
{
    let n = ws_prefix_count(v);
    proof {
        lemma_ws_prefix_bound(v@);
    }
    let mut acc: usize = 0;
    let mut tab = false;
    let mut i: usize = 0;
    while i < n
        invariant
            n == ws_prefix(v@),
            i <= n <= v.len(),
            acc == cap2(utf8_len_seq(v@.take(i as int))),
            tab == v@.take(i as int).contains('\t'),
        decreases n - i,
    {
        let l = char_utf8_len(v[i]);
        assert(v@.take(i + 1).drop_last() =~= v@.take(i as int));
        assert(v@.take(i + 1) =~= v@.take(i as int).push(v[i as int]));
        if acc + l >= 2 {
            acc = 2;
        } else {
            acc = acc + l;
        }
        if v[i] == '\t' {
            assert(v@.take(i + 1)[i as int] == '\t');
            tab = true;
        } else {
            assert forall|j: int| 0 <= j < i + 1 && #[trigger] v@.take(i + 1)[j] == '\t' implies v@.take(
                i as int,
            ).contains('\t') by {
                assert(v@.take(i as int)[j] == '\t');
            }
        }
        i += 1;
    }
    acc >= 2 || tab
}

fn task_out(line: &Vec<char>, t: &Vec<char>, k: usize, checked: bool) -> (o: Vec<char>)
    requires
        k <= t.len(),
    ensures
        o@ == task_item(is_sub_item(line@), checked, task_text(t@.skip(k as int))),
{
    let sub = sub_item(line);
    let mut o = if sub {
        if checked {
            chars_of("#subtask(true)[")
        } else {
            chars_of("#subtask(false)[")
        }
    } else {
        if checked {
            chars_of("#task(true)[")
        } else {
            chars_of("#task(false)[")
        }
    };
    let rest = copy_range(t, k, t.len());
    assert(rest@ =~= t@.skip(k as int));
    let e = escape_chars(&rest);
    let f = emphasis_chars(&e);
    extend_chars(&mut o, &f);
    extend_str(&mut o, "]\n");
    o
}

fn task_line_out(line: &Vec<char>) -> (o: Vec<char>)
    ensures
        o@ == task_line(line@),
{
    proof {
        reveal_strlit("# ");
        reveal_strlit("## ");
        reveal_strlit("### ");
        reveal_strlit("- [x] ");
        reveal_strlit("- [X] ");
        reveal_strlit("- [ ] ");
        reveal_strlit("- ");
    }
    let (x, y) = trim_bounds(line);
    let t = copy_range(line, x, y);
    if has_prefix(&t, "# ") {
        return heading_out(&t, 2, "== ");
    }
    if has_prefix(&t, "## ") {
        return heading_out(&t, 3, "== ");
    }
    if has_prefix(&t, "### ") {
        return heading_out(&t, 4, "=== ");
    }
    if has_prefix(&t, "- [x] ") || has_prefix(&t, "- [X] ") {
        return task_out(line, &t, 6, true);
    }
    if has_prefix(&t, "- [ ] ") {
        return task_out(line, &t, 6, false);
    }
    if has_prefix(&t, "- ") {
        return task_out(line, &t, 2, false);
    }
    if t.len() == 0 {
        return chars_of("#v(0.3em)\n");
    }
    assert(t@.skip(0) =~= t@);
    let o = inline_out(&t, 0, "", "\n");
    proof {
        reveal_strlit("");
        assert(""@ + inline_spec(t@) =~= inline_spec(t@));
    }
    o
}

/// Convert task-list markdown to Typst with checkbox grid rendering:
/// headings, a checkbox row per task (struck through when checked, nested
/// when indented), and empty rows under "New Tasks" at the end.
pub fn markdown_to_typst_tasks(md: &str) -> (r: String)
    ensures
        r@ == markdown_to_typst_tasks_spec(md@),
{
    let mut out = String::new();
    push_str(&mut out, TASKS_PREAMBLE);
    let v = chars_of(md);
    let lines = split_lines(&v);
    let ghost ls = lines@.map_values(|l: Vec<char>| l@);
    let mut k: usize = 0;
    assert(ls.take(0) =~= Seq::<Seq<char>>::empty());
    assert(TASKS_PREAMBLE@ + Seq::<char>::empty() =~= out@);
    while k < lines.len()
        invariant
            k <= lines.len(),
            ls == lines@.map_values(|l: Vec<char>| l@),
            ls == lines_of(md@),
            out@ == TASKS_PREAMBLE@ + tasks_fold(ls.take(k as int)),
        decreases lines.len() - k,
    {
        let o = task_line_out(&lines[k]);
        push_chars(&mut out, &o);
        assert(ls.take(k + 1).drop_last() =~= ls.take(k as int));
        assert(ls.take(k + 1).last() == lines[k as int]@);
        assert(out@ =~= TASKS_PREAMBLE@ + tasks_fold(ls.take(k + 1)));
        k += 1;
    }
    assert(ls.take(lines.len() as int) =~= ls);
    let ghost body = out@;
    push_str(&mut out, "\n#v(1em)\n");
    push_str(&mut out, "== New Tasks\n\n");
    let mut i: usize = 0;
    while i < 8
        invariant
            i <= 8,
            out@ == body + "\n#v(1em)\n"@ + "== New Tasks\n\n"@ + empty_rows(i as nat),
        decreases 8 - i,
    {
        push_str(&mut out, "#empty-row\n");
        push_str(&mut out, "#v(0.5em)\n");
        assert(out@ =~= body + "\n#v(1em)\n"@ + "== New Tasks\n\n"@ + empty_rows((i + 1) as nat));
        i += 1;
    }
    assert(out@ =~= markdown_to_typst_tasks_spec(md@));
    out
}

/// The Typst source of a markdown document in a format: the task-list
/// conversion for the tasks format, the general one otherwise.
pub open spec fn typst_source_spec(md: Seq<char>, format: PushFormat) -> Seq<char> {
    match format {
        PushFormat::Tasks => markdown_to_typst_tasks_spec(md),
        _ => markdown_to_typst_spec(md, format),
    }
}

/// Every Typst source opens with the setup block of its format, and a task
/// list closes with the "New Tasks" section of empty rows for handwritten
/// additions.
pub proof fn lemma_typst_source_shape(md: Seq<char>, format: PushFormat)
    ensures
        format != PushFormat::Tasks ==> starts_with(
            typst_source_spec(md, format),
            preamble_spec(format),
        ),
        format == PushFormat::Tasks ==> starts_with(typst_source_spec(md, format), TASKS_PREAMBLE@),
        format == PushFormat::Tasks ==> typst_source_spec(md, format).skip(
            typst_source_spec(md, format).len() - tasks_trailer().len(),
        ) == tasks_trailer(),
{
    let src = typst_source_spec(md, format);
    if format == PushFormat::Tasks {
        assert(src.take(TASKS_PREAMBLE@.len() as int) =~= TASKS_PREAMBLE@);
        assert(src.skip(src.len() - tasks_trailer().len()) =~= tasks_trailer());
    } else {
        assert(src.take(preamble_spec(format).len() as int) =~= preamble_spec(format));
    }
}

/// Generate the Typst source for a markdown document in a format.
pub fn typst_source(md: &str, format: &PushFormat) -> (r: String)
    ensures
        r@ == typst_source_spec(md@, *format),
{
    match format {
        PushFormat::Tasks => markdown_to_typst_tasks(md),
        _ => markdown_to_typst(md, format),
    }
}

} // verus!

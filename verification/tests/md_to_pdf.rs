use obsidible::markdown::{
    convert_inline_formatting, convert_inline_formatting_typst, convert_links,
    convert_paired_marker, escape_typst, strip_ordered_list_prefix,
};
use obsidible::typst::{
    format_preamble, markdown_to_typst, markdown_to_typst_tasks, typst_source, PushFormat,
};

#[test]
fn test_strip_ordered_list() {
    assert_eq!(strip_ordered_list_prefix("1. First"), Some("First"));
    assert_eq!(strip_ordered_list_prefix("12. Twelfth"), Some("Twelfth"));
    assert_eq!(strip_ordered_list_prefix("Not a list"), None);
    assert_eq!(strip_ordered_list_prefix("- Unordered"), None);
}

#[test]
fn test_markdown_to_typst_headings() {
    let md = "# Title\n## Section\n### Sub\n";
    let result = markdown_to_typst(md, &PushFormat::Default);
    assert!(result.contains("= Title"));
    assert!(result.contains("== Section"));
    assert!(result.contains("=== Sub"));
}

#[test]
fn test_tasks_format() {
    let md = "# Work\n- [ ] Do the thing\n- [x] Already done\n  - [ ] Sub-task\n";
    let result = markdown_to_typst_tasks(md);
    assert!(result.contains("#task(false)[Do the thing]"));
    assert!(result.contains("#task(true)[Already done]"));
    assert!(result.contains("#subtask(false)[Sub-task]"));
    assert!(result.contains("== New Tasks"));
    assert!(result.contains("#empty-row"));
}

#[test]
fn test_format_preambles() {
    let default = format_preamble(&PushFormat::Default);
    assert!(default.contains("margin: (x: 2cm, y: 2cm)"));
    assert!(default.contains("size: 11pt"));
    assert!(default.contains("justify: true"));

    let recipe = format_preamble(&PushFormat::Recipe);
    assert!(recipe.contains("margin: (x: 2.5cm, y: 2.5cm)"));
    assert!(recipe.contains("size: 12pt"));
    assert!(recipe.contains("justify: false"));

    let briefing = format_preamble(&PushFormat::Briefing);
    assert!(briefing.contains("justify: false"));
    assert!(briefing.contains("size: 11pt"));
}

#[test]
fn strip_ordered_list_edge_cases() {
    assert_eq!(strip_ordered_list_prefix("  3. Indented"), Some("Indented"));
    assert_eq!(strip_ordered_list_prefix("3."), None);
    assert_eq!(strip_ordered_list_prefix("3.x"), None);
    assert_eq!(strip_ordered_list_prefix("123"), None);
    assert_eq!(strip_ordered_list_prefix(". x"), None);
    assert_eq!(strip_ordered_list_prefix("7. "), Some(""));
}

#[test]
fn escape_typst_special_characters() {
    assert_eq!(escape_typst(r"a\b#c$d@e"), r"a\\b\#c\$d\@e");
    assert_eq!(escape_typst("plain"), "plain");
    assert_eq!(escape_typst(""), "");
}

#[test]
fn paired_markers_need_two_occurrences() {
    assert_eq!(convert_paired_marker("**bold**", "**", "*"), "*bold*");
    assert_eq!(convert_paired_marker("a **b", "**", "*"), "a **b");
    assert_eq!(convert_paired_marker("*a* *b*", "*", "_"), "_a_ _b_");
    assert_eq!(convert_paired_marker("x*y*z*w", "*", "_"), "x_y_z_w");
    assert_eq!(convert_paired_marker("abc", "", "-"), "-a-b-c-");
    assert_eq!(convert_paired_marker("", "", "-"), "");
    assert_eq!(convert_paired_marker("***", "**", "*"), "***");
}

#[test]
fn links_are_converted() {
    assert_eq!(
        convert_links("see [docs](https://x.y) now"),
        "see #link(\"https://x.y\")[docs] now"
    );
    assert_eq!(convert_links("a [b] c"), "a [b] c");
    assert_eq!(convert_links("[a](b"), "[a](b");
    assert_eq!(convert_links("[x][y](z)"), "[x]#link(\"z\")[y]");
    assert_eq!(convert_links("[a] and [b](u)"), "[a] and #link(\"u\")[b]");
    assert_eq!(convert_links("no links"), "no links");
}

#[test]
fn inline_formatting_pipeline() {
    assert_eq!(
        convert_inline_formatting("**bold** and *it* #tag [l](u)"),
        "*bold* and _it_ \\#tag #link(\"u\")[l]"
    );
    assert_eq!(convert_inline_formatting("**bold** and *it*"), "*bold* and _it_");
    assert_eq!(convert_inline_formatting_typst("**Due** [ref](u)"), "*Due* [ref](u)");
    assert_eq!(convert_inline_formatting_typst("**b** *i* #x"), "*b* _i_ #x");
    // A single bold marker is no pair; single stars still pair up as italic.
    assert_eq!(convert_inline_formatting_typst("a **b *c*"), "a __b _c_");
    assert_eq!(convert_inline_formatting_typst("*x* **y**"), "_x_ *y*");
    // Italic spans the bold markers.
    assert_eq!(convert_inline_formatting_typst("*a **b** c*"), "_a *b* c_");
    // A lone star beside bold stays as it is.
    assert_eq!(convert_inline_formatting_typst("**a** b*c"), "*a* b*c");
}

#[test]
fn markdown_document_structure() {
    let md = "# T\r\n- item **b**\n1. one\n> quote\n---\n\nplain @x\n```rust\nlet # = 1;\n```\n";
    let result = markdown_to_typst(md, &PushFormat::Tasks);
    let expected = "= T\n\n- item *b*\n+ one\n#quote[quote]\n\n#line(length: 100%)\n\n\nplain \\@x\n```rust\nlet # = 1;\n```\n\n";
    assert_eq!(result, expected);
}

#[test]
fn markdown_fence_without_language() {
    let result = markdown_to_typst("```\ncode\n", &PushFormat::Tasks);
    assert_eq!(result, "```\ncode\n");
}

#[test]
fn tasks_regular_text_and_blank_lines() {
    let result = markdown_to_typst_tasks("Note\n\n- plain\n\t- [X] tab *sub*\n");
    let start = result.find("Note").unwrap();
    let body_end = result.find("\n#v(1em)\n").unwrap();
    assert_eq!(
        &result[start..body_end],
        "Note\n#v(0.3em)\n#task(false)[plain]\n#subtask(true)[tab _sub_]\n"
    );
    assert_eq!(result.matches("#empty-row").count(), 8);
}

#[test]
fn typst_source_dispatches_on_format() {
    assert_eq!(typst_source("- a", &PushFormat::Tasks), markdown_to_typst_tasks("- a"));
    assert_eq!(
        typst_source("- a", &PushFormat::Recipe),
        markdown_to_typst("- a", &PushFormat::Recipe)
    );
    assert!(typst_source("- a", &PushFormat::Recipe).ends_with("- a\n"));
}

/// Reads escaped Typst text the way Typst does: a backslash makes the next
/// character literal.
fn read_escaped(s: &str) -> String {
    let mut out = String::new();
    let mut chars = s.chars();
    while let Some(c) = chars.next() {
        if c == '\\' {
            match chars.next() {
                Some(n) => out.push(n),
                None => out.push(c),
            }
        } else {
            out.push(c);
        }
    }
    out
}

#[test]
fn escaped_text_reads_back() {
    for text in ["plain", "a#b", "50$ @home", "back\\slash\\", "\\#", "é#ü"] {
        assert_eq!(read_escaped(&escape_typst(text)), text);
    }
}

#[test]
fn typst_sources_open_with_setup_and_tasks_close_with_rows() {
    let md = "# T\n- [ ] a\n";
    for fmt in [PushFormat::Default, PushFormat::Recipe, PushFormat::Briefing] {
        assert!(typst_source(md, &fmt).starts_with(&format_preamble(&fmt)));
    }
    let tasks = typst_source(md, &PushFormat::Tasks);
    assert!(tasks.starts_with("#set page("));
    assert!(tasks.contains("== New Tasks"));
    assert!(tasks.ends_with("#empty-row\n#v(0.5em)\n"));
    assert_eq!(tasks.matches("#empty-row\n").count(), 8);
}

#[test]
fn tab_indented_items_are_subtasks() {
    let out = markdown_to_typst_tasks("- [ ] Parent\n\t- [ ] Child");
    assert!(out.contains("#task(false)[Parent]\n#subtask(false)[Child]\n"));
    let out = markdown_to_typst_tasks(" - [ ] One space");
    assert!(out.contains("#task(false)[One space]"));
}

#[test]
fn task_list_sections_are_level_two() {
    let out = markdown_to_typst_tasks("# Work\n## Sub\n- [ ] a\n");
    assert!(out.contains("== Work\n\n== Sub\n\n#task(false)[a]\n"));
}

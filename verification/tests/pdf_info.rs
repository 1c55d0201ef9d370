use obsidible::pdf_info::page_size_fields;
use obsidible::push::{parse_page_count, reported_pages, PageCountError};

fn parse_page_size(output: &str) -> (f64, f64) {
    let (w, h) = page_size_fields(output).unwrap();
    (w.parse().unwrap(), h.parse().unwrap())
}

#[test]
fn test_parse_a4() {
    let output = "Page size:      595.28 x 841.89 pts (A4)\n";
    let (width_pt, height_pt) = parse_page_size(output);
    assert!((width_pt - 595.28).abs() < 0.01);
    assert!((height_pt - 841.89).abs() < 0.01);
}

#[test]
fn test_parse_letter() {
    let output =
        "Title:          doc\nPage size:      612 x 792 pts (letter)\nPages:          3\n";
    let (width_pt, height_pt) = parse_page_size(output);
    assert!((width_pt - 612.0).abs() < 0.01);
    assert!((height_pt - 792.0).abs() < 0.01);
}

#[test]
fn page_size_fields_edge_cases() {
    assert_eq!(page_size_fields("Pages: 3\n"), None);
    assert_eq!(page_size_fields("Page size: 612 by 792\n"), None);
    assert_eq!(
        page_size_fields("Page size: 1 by 2\n  Page size:  3 x 4\n"),
        Some(("3".to_string(), "4".to_string()))
    );
}

#[test]
fn page_count_from_pdfinfo() {
    let output = "Title:          doc\nPage size:      612 x 792 pts (letter)\nPages:          3\n";
    assert_eq!(parse_page_count(output), Ok(3));
    assert_eq!(parse_page_count("Pages: +12\n"), Ok(12));
    assert_eq!(parse_page_count("Title: x\n"), Err(PageCountError::NoPagesLine));
    assert_eq!(parse_page_count("Pages: many\nPages: 2\n"), Err(PageCountError::InvalidCount));
    assert_eq!(parse_page_count("Pages: 4294967296\n"), Err(PageCountError::InvalidCount));
    assert_eq!(parse_page_count("Pages: 4294967295\n"), Ok(4294967295));
    assert_eq!(parse_page_count("Pages: -1\n"), Err(PageCountError::InvalidCount));
    assert_eq!(reported_pages(Some("Pages: 7")), 7);
    assert_eq!(reported_pages(Some("nothing")), 1);
    assert_eq!(reported_pages(None), 1);
}

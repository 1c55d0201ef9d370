use obsidible::numbers::{decimal_chars, parse_u32};
use obsidible::pull::{document_kind, page_file_name, plan_pdf_pages, DocumentKind, PagePlan, PageSource};
use obsidible::push::{classify_extension, remote_file_path, source_kind, SourceKind};
use obsidible::remarkable::{remote_basename, remote_parent};
use obsidible::rmdoc::{ContentMetadata, ExtractedRmdoc};

fn metadata(pages: &[&str]) -> ContentMetadata {
    ContentMetadata {
        pages: pages.iter().map(|s| s.to_string()).collect(),
        page_count: pages.len() as i64,
        file_type: "pdf".to_string(),
    }
}

#[test]
fn page_file_names_are_zero_padded() {
    assert_eq!(page_file_name(1), "page-001.png");
    assert_eq!(page_file_name(42), "page-042.png");
    assert_eq!(page_file_name(999), "page-999.png");
    assert_eq!(page_file_name(1234), "page-1234.png");
    assert_eq!(page_file_name(0), "page-000.png");
}

#[test]
fn document_kinds() {
    assert_eq!(document_kind("pdf"), DocumentKind::Pdf);
    assert_eq!(document_kind("epub"), DocumentKind::Epub);
    assert_eq!(document_kind("notebook"), DocumentKind::Notebook);
    assert_eq!(document_kind(""), DocumentKind::Notebook);
    assert_eq!(document_kind("PDF"), DocumentKind::Notebook);
}

#[test]
fn source_kinds() {
    assert_eq!(classify_extension("pdf"), Ok(SourceKind::Pdf));
    assert_eq!(classify_extension("PDF"), Ok(SourceKind::Pdf));
    assert_eq!(classify_extension("Md"), Ok(SourceKind::Markdown));
    assert_eq!(classify_extension("TXT"), Err("txt".to_string()));
    assert_eq!(classify_extension(""), Err(String::new()));
    assert_eq!(source_kind("md"), Ok(SourceKind::Markdown));
    assert_eq!(source_kind("MD"), Err("MD".to_string()));
}

#[test]
fn remote_file_paths() {
    assert_eq!(remote_file_path("/Briefings", "Briefing"), "/Briefings/Briefing");
    assert_eq!(remote_file_path("/Briefings//", "B"), "/Briefings/B");
    assert_eq!(remote_file_path("/", "Tasks"), "/Tasks");
}

#[test]
fn extracted_from_pages() {
    let ext = ExtractedRmdoc::from_pages(
        "doc".to_string(),
        metadata(&["p1", "p2", "p3"]),
        vec![Some("/x/p1.rm".to_string()), None, Some("/x/p3.rm".to_string())],
        Some("/x/doc.pdf".to_string()),
        "/x".to_string(),
    );
    assert_eq!(ext.rm_files, vec!["/x/p1.rm".to_string(), "/x/p3.rm".to_string()]);
    assert_eq!(
        ext.rm_files_by_page,
        vec![
            ("p1".to_string(), "/x/p1.rm".to_string()),
            ("p3".to_string(), "/x/p3.rm".to_string())
        ]
    );
    assert!(ext.page_has_annotations("p3"));
    assert!(!ext.page_has_annotations("p2"));
}

#[test]
fn extracted_from_scan() {
    let ext = ExtractedRmdoc::from_scanned_files(
        "doc".to_string(),
        metadata(&[]),
        vec![
            ("c".to_string(), "/x/c.rm".to_string()),
            ("a".to_string(), "/x/a.rm".to_string()),
            ("b".to_string(), "/x/b.rm".to_string()),
        ],
        None,
        "/x".to_string(),
    );
    assert_eq!(
        ext.rm_files,
        vec!["/x/a.rm".to_string(), "/x/b.rm".to_string(), "/x/c.rm".to_string()]
    );
    assert_eq!(
        ext.rm_files_by_page,
        vec![
            ("a".to_string(), "/x/a.rm".to_string()),
            ("b".to_string(), "/x/b.rm".to_string()),
            ("c".to_string(), "/x/c.rm".to_string())
        ]
    );
    assert!(ext.page_has_annotations("a"));
}

#[test]
fn pdf_plan_with_annotations() {
    let ext = ExtractedRmdoc::from_pages(
        "doc".to_string(),
        metadata(&["p1", "p2", "p3", "p4"]),
        vec![Some("/x/p1.rm".to_string()), None, Some("/x/p3.rm".to_string()), None],
        Some("/x/doc.pdf".to_string()),
        "/x".to_string(),
    );
    let plan = plan_pdf_pages(&ext, 2);
    assert!(plan.has_annotations);
    assert_eq!(
        plan.pages,
        vec![
            PagePlan { page_num: 1, source: PageSource::Composite { base: 0 } },
            PagePlan { page_num: 2, source: PageSource::CopyBase { base: 1 } },
            PagePlan { page_num: 3, source: PageSource::Standalone },
        ]
    );
}

#[test]
fn pdf_plan_without_annotations() {
    let ext = ExtractedRmdoc::from_pages(
        "doc".to_string(),
        metadata(&["p1"]),
        vec![None],
        Some("/x/doc.pdf".to_string()),
        "/x".to_string(),
    );
    let plan = plan_pdf_pages(&ext, 3);
    assert!(!plan.has_annotations);
    assert_eq!(
        plan.pages,
        vec![
            PagePlan { page_num: 1, source: PageSource::CopyBase { base: 0 } },
            PagePlan { page_num: 2, source: PageSource::CopyBase { base: 1 } },
            PagePlan { page_num: 3, source: PageSource::CopyBase { base: 2 } },
        ]
    );
}

#[test]
fn numbers() {
    let d: String = decimal_chars(1234567).into_iter().collect();
    assert_eq!(d, "1234567");
    let z: String = decimal_chars(0).into_iter().collect();
    assert_eq!(z, "0");
    assert_eq!(parse_u32(&"0042".chars().collect()), Some(42));
    assert_eq!(parse_u32(&"+".chars().collect()), None);
    assert_eq!(parse_u32(&"".chars().collect()), None);
    assert_eq!(parse_u32(&" 1".chars().collect()), None);
}

#[test]
fn page_file_names_are_distinct() {
    let names: Vec<String> = (0..1200).map(page_file_name).collect();
    let mut sorted = names.clone();
    sorted.sort();
    sorted.dedup();
    assert_eq!(sorted.len(), names.len());
    assert_ne!(page_file_name(100), page_file_name(1000));
}

#[test]
fn uploaded_path_lies_in_destination() {
    for dest in ["/Briefings", "/Briefings/", "/Briefings///"] {
        let p = remote_file_path(dest, "Briefing 2026-03-23");
        assert_eq!(p, "/Briefings/Briefing 2026-03-23");
        assert_eq!(remote_parent(&p), Some("/Briefings"));
        assert_eq!(remote_basename(&p), "Briefing 2026-03-23");
    }
}

#[test]
fn pdf_plan_numbers_increase() {
    let ext = ExtractedRmdoc::from_pages(
        "doc".to_string(),
        metadata(&["p1", "p2", "p3", "p4"]),
        vec![None, Some("/x/p2.rm".to_string()), None, Some("/x/p4.rm".to_string())],
        Some("/x/doc.pdf".to_string()),
        "/x".to_string(),
    );
    let plan = plan_pdf_pages(&ext, 2);
    let nums: Vec<usize> = plan.pages.iter().map(|p| p.page_num).collect();
    assert_eq!(nums, vec![1, 2, 4]);
    for p in &plan.pages {
        match p.source {
            PageSource::Composite { base } | PageSource::CopyBase { base } => {
                assert!(base < 2);
                assert_eq!(base + 1, p.page_num);
            }
            PageSource::Standalone => {}
        }
    }
}

#[test]
fn files_by_page_match_rm_files() {
    let ext = ExtractedRmdoc::from_pages(
        "doc".to_string(),
        metadata(&["a", "b", "c"]),
        vec![Some("/x/a.rm".to_string()), Some("/x/b.rm".to_string()), None],
        None,
        "/x".to_string(),
    );
    let seconds: Vec<String> = ext.rm_files_by_page.iter().map(|(_, f)| f.clone()).collect();
    assert_eq!(seconds, ext.rm_files);
    assert!(ext.page_has_annotations("a"));
    assert!(ext.page_has_annotations("b"));
    assert!(!ext.page_has_annotations("c"));
}

#[test]
fn repeated_page_keeps_one_entry() {
    let ext = ExtractedRmdoc::from_pages(
        "doc".to_string(),
        metadata(&["p", "q", "p"]),
        vec![Some("/x/1.rm".to_string()), None, Some("/x/2.rm".to_string())],
        None,
        "/x".to_string(),
    );
    assert_eq!(ext.rm_files, vec!["/x/1.rm".to_string(), "/x/2.rm".to_string()]);
    assert_eq!(ext.rm_files_by_page, vec![("p".to_string(), "/x/2.rm".to_string())]);
}

#[test]
fn page_images_filtered_and_sorted() {
    let names = vec![
        "page-3.png".to_string(),
        "other.png".to_string(),
        "page-1.png".to_string(),
        "page-2.ppm".to_string(),
        "page-2.png".to_string(),
    ];
    assert_eq!(
        obsidible::pull::page_images(names),
        vec!["page-1.png".to_string(), "page-2.png".to_string(), "page-3.png".to_string()]
    );
}

use obsidible::svg::{
    coordinate_pairs, extract_attr, replace_attr, style_stroke_width, svg_elements, svg_header,
    ElementKind,
};

#[test]
fn coordinate_pairs_of_stroke_points() {
    let points = "-100.0,50.0 0.0,100.0 100.0,150.0";
    let pairs = coordinate_pairs(points);
    assert_eq!(
        pairs,
        vec![
            ("-100.0".to_string(), "50.0".to_string()),
            ("0.0".to_string(), "100.0".to_string()),
            ("100.0".to_string(), "150.0".to_string()),
        ]
    );
}

#[test]
fn test_extract_attr() {
    let elem = r#"<polyline points="1,2 3,4" stroke="black" stroke-width="0.5"/>"#;
    assert_eq!(extract_attr(elem, "points"), Some("1,2 3,4"));
    assert_eq!(extract_attr(elem, "stroke"), Some("black"));
    assert_eq!(extract_attr(elem, "stroke-width"), Some("0.5"));
    assert_eq!(extract_attr(elem, "fill"), None);
}

#[test]
fn test_replace_attr() {
    let elem = r#"<polyline points="1,2" stroke-width="0.5"/>"#;
    let result = replace_attr(elem, "stroke-width", "1.39");
    assert!(result.contains(r#"stroke-width="1.39""#));
}

#[test]
fn replace_attr_exact_and_missing() {
    let elem = r#"<line x1="1" y1="2"/>"#;
    assert_eq!(replace_attr(elem, "y1", "9.00"), r#"<line x1="1" y1="9.00"/>"#);
    assert_eq!(replace_attr(elem, "x2", "9"), elem);
    // An unterminated value is left alone.
    assert_eq!(replace_attr(r#"<a b="c"#, "b", "d"), r#"<a b="c"#);
    assert_eq!(extract_attr(r#"<a b="c"#, "b"), None);
}

#[test]
fn extract_after_replace_gives_new_value() {
    let elem = r#"<path d="M 0 0" stroke-width="2"/>"#;
    let replaced = replace_attr(elem, "d", "M 1,1");
    assert_eq!(extract_attr(&replaced, "d"), Some("M 1,1"));
    let same = replace_attr(elem, "stroke-width", extract_attr(elem, "stroke-width").unwrap());
    assert_eq!(same, elem);
}

#[test]
fn svg_header_sizes() {
    assert_eq!(
        svg_header(1654, 2339),
        "<svg xmlns=\"http://www.w3.org/2000/svg\" width=\"1654\" height=\"2339\" viewBox=\"0 0 1654 2339\">\n"
    );
    assert!(svg_header(0, 7).contains("width=\"0\" height=\"7\""));
}

#[test]
fn svg_elements_classified() {
    let raw = "<?xml version=\"1.0\"?>\n<svg width=\"1\">\n  <g id=\"p1\">\n  <polyline points=\"1,2\"/>\n<polygon points=\"3,4\"/>\n<line x1=\"0\"/>\n<circle cx=\"1\"/>\n<path d=\"M0 0\"/>\n</g>\n</svg>\n";
    let els = svg_elements(raw);
    let kinds: Vec<ElementKind> = els.iter().map(|e| e.kind).collect();
    assert_eq!(
        kinds,
        vec![
            ElementKind::Other,
            ElementKind::Polyline,
            ElementKind::Polyline,
            ElementKind::Line,
            ElementKind::Circle,
            ElementKind::Path,
            ElementKind::Other,
        ]
    );
    assert_eq!(els[0].text, "<g id=\"p1\">");
    assert_eq!(els[1].text, "<polyline points=\"1,2\"/>");
}

#[test]
fn coordinate_pairs_need_one_comma() {
    let pairs = coordinate_pairs("  1,2\t3,4,5 x 6,y ,7 ");
    let got: Vec<(&str, &str)> = pairs.iter().map(|(a, b)| (a.as_str(), b.as_str())).collect();
    assert_eq!(got, vec![("1", "2"), ("6", "y"), ("", "7")]);
    assert!(coordinate_pairs("").is_empty());
}

#[test]
fn style_stroke_width_parts() {
    let (before, number, after) = style_stroke_width("fill:none;stroke-width: 1.5px;opacity:1").unwrap();
    assert_eq!(before, "fill:none;");
    assert_eq!(number, "1.5");
    assert_eq!(after, "px;opacity:1");
    assert_eq!(style_stroke_width("fill:none"), None);
    let (b, n, a) = style_stroke_width("stroke-width:").unwrap();
    assert_eq!((b.as_str(), n.as_str(), a.as_str()), ("", "", ""));
}

#[test]
fn extract_attr_whole_name_only() {
    assert_eq!(extract_attr(r#"<circle color="red" r="3"/>"#, "r"), Some("3"));
    assert_eq!(extract_attr(r#"<line x1="1" x2="2"/>"#, "x2"), Some("2"));
    assert_eq!(extract_attr(r#"<circle color="red"/>"#, "r"), None);
    assert_eq!(
        replace_attr(r#"<circle color="red" r="3"/>"#, "r", "6"),
        r#"<circle color="red" r="6"/>"#
    );
}

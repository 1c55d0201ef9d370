use obsidible::path_data::{path_data_pieces, PathPiece};

/// Renders pieces the way the annotation compositor does: kept characters
/// as they are, numbers scaled (and shifted first where asked) to two places.
fn render(pieces: &[PathPiece], x_offset: f64, scale: f64) -> String {
    let mut out = String::new();
    for p in pieces {
        match p {
            PathPiece::Kept(c) => out.push(*c),
            PathPiece::Number { text, shift } => {
                let v: f64 = text.parse().unwrap();
                let moved = if *shift { (v + x_offset) * scale } else { v * scale };
                out.push_str(&format!("{moved:.2}"));
            }
        }
    }
    out
}

fn transformed(d: &str, x_offset: f64, scale: f64) -> Option<String> {
    path_data_pieces(d).map(|p| render(&p, x_offset, scale))
}

#[test]
fn path_data_move_line_close() {
    assert_eq!(
        transformed("M 1,2 L3 4 Z", 0.0, 1.0).as_deref(),
        Some("M 1.00,2.00 L3.00,4.00 Z")
    );
}

#[test]
fn path_data_absolute_shifts_x_only() {
    assert_eq!(
        transformed("M10,20", 5.0, 2.0).as_deref(),
        Some("M30.00,40.00")
    );
    assert_eq!(
        transformed("m10,20", 5.0, 2.0).as_deref(),
        Some("m20.00,40.00")
    );
}

#[test]
fn path_data_cubic_group() {
    assert_eq!(
        transformed("C1,2 3,4 5,6", 10.0, 2.0).as_deref(),
        Some("C22.00,4.00 26.00,8.00 30.00,12.00")
    );
}

#[test]
fn path_data_single_coordinates() {
    assert_eq!(transformed("H5", 1.0, 2.0).as_deref(), Some("H12.00"));
    assert_eq!(transformed("h5", 1.0, 2.0).as_deref(), Some("h10.00"));
    assert_eq!(transformed("V5", 1.0, 2.0).as_deref(), Some("V10.00"));
}

#[test]
fn path_data_unknown_command_scales_each_number() {
    assert_eq!(
        transformed("B1 2", 3.0, 2.0).as_deref(),
        Some("B2.00 4.00")
    );
}

#[test]
fn path_data_arcs_keep_flags_and_move_end_point() {
    assert_eq!(
        transformed("A5,5 0 1,0 10,10", 100.0, 2.0).as_deref(),
        Some("A10.00,10.00 0 1,0 220.00,20.00")
    );
    assert_eq!(
        transformed("a5 5 30 0 1 -10 4", 100.0, 2.0).as_deref(),
        Some("a10.00,10.00 30 0,1 -20.00,8.00")
    );
    // An arc missing parameters writes nothing.
    assert_eq!(transformed("A1 2", 3.0, 2.0).as_deref(), Some("A"));
}

#[test]
fn path_data_relative_ignores_offset() {
    let d = "m1,2 l3 4 c1,2 3,4 5,6 h5 v6 a1 1 0 0 1 2 2 z";
    assert_eq!(transformed(d, 0.0, 1.5), transformed(d, 999.0, 1.5));
    assert_ne!(transformed("M1,2", 0.0, 1.5), transformed("M1,2", 999.0, 1.5));
}

#[test]
fn path_data_number_pieces_keep_text() {
    let pieces = path_data_pieces("M-1.5e2,3").unwrap();
    assert_eq!(pieces.len(), 4);
    match &pieces[1] {
        PathPiece::Number { text, shift } => {
            assert_eq!(text, "-1.5e2");
            assert!(*shift);
        }
        PathPiece::Kept(_) => panic!("expected a number"),
    }
    match &pieces[3] {
        PathPiece::Number { text, shift } => {
            assert_eq!(text, "3");
            assert!(!*shift);
        }
        PathPiece::Kept(_) => panic!("expected a number"),
    }
}

#[test]
fn path_data_invalid_number_is_dropped() {
    // "1e" is consumed but is no number; the lone "5" lacks its y.
    assert_eq!(transformed("M1e 5", 0.0, 1.0).as_deref(), Some("M "));
}

#[test]
fn path_data_empty() {
    assert_eq!(transformed("", 0.0, 1.0).as_deref(), Some(""));
}

#[test]
fn path_data_stuck_input_is_none() {
    assert!(path_data_pieces("Z 5").is_none());
    assert!(path_data_pieces("#").is_none());
}

#[test]
fn path_data_numbers_always_parse() {
    let d = "M-1.5e2,+3. L.5 -7E+1 C1,2,3,4,5,6 h1e-3 Z m 0 0 q1 2 3 4 a 1 1 0 0 1 5 5";
    let pieces = path_data_pieces(d).unwrap();
    let mut numbers = 0;
    for p in &pieces {
        if let PathPiece::Number { text, .. } = p {
            assert!(text.parse::<f64>().is_ok(), "{text}");
            numbers += 1;
        }
    }
    assert_eq!(numbers, 21);
}

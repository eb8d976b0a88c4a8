use jeu_de_la_vie::pattern::{parse_rle, Patterns};

#[test]
fn decode_glider() {
    let cells = Patterns::from_rle_string("bo$2bo$3o!");
    let expected = [(1, 0), (2, 1), (0, 2), (1, 2), (2, 2)];
    assert_eq!(cells.len(), expected.len());
    for p in &expected {
        assert!(cells.contains(p), "missing cell: {:?}", p);
    }
}

#[test]
fn decode_run_of_three() {
    let cells = parse_rle("3o!");
    assert_eq!(cells, vec![(0, 0), (1, 0), (2, 0)]);
}

#[test]
fn decode_unrecognized_text_is_empty() {
    let cells = parse_rle("xyz");
    assert!(cells.is_empty());
}

#[test]
fn decode_empty_input_is_empty() {
    assert!(parse_rle("").is_empty());
}

#[test]
fn decode_stops_at_terminator() {
    // Everything after the first `!` is ignored.
    let cells = parse_rle("o!o");
    assert_eq!(cells, vec![(0, 0)]);
}

#[test]
fn decode_dead_runs_and_rows() {
    // One dead cell, one alive, a row break of two, then two alive.
    let cells = parse_rle("bo$$2o!");
    assert_eq!(cells, vec![(1, 0), (0, 2), (1, 2)]);
}

#[test]
fn decode_dot_counts_as_dead() {
    let cells = parse_rle(".o!");
    assert_eq!(cells, vec![(1, 0)]);
}

#[test]
fn decode_multi_digit_run() {
    let cells = parse_rle("12o!");
    assert_eq!(cells.len(), 12);
    for (i, p) in cells.iter().enumerate() {
        assert_eq!(*p, (i as i32, 0));
    }
}

#[test]
fn decode_comment_bytes_are_skipped() {
    let cells = parse_rle("#C\no!");
    assert_eq!(cells, vec![(0, 0)]);
}

#[test]
fn decode_row_count() {
    // `3$` advances three rows at once.
    let cells = parse_rle("o3$o!");
    assert_eq!(cells, vec![(0, 0), (0, 3)]);
}

use tome::Anchor;
use tome::DocumentId;
use tome::Range;
use tome::normalize_eol;
use tome::to_lines;
use tome::CONTEXT;

#[test]
fn normalize_and_lines() {
    let v = to_lines("a\r\nb\nc");
    assert_eq!(v, vec!["a", "b", "c"]);
}

#[test]
fn anchor_resolves_after_inserting_line_above() {
    let text = "alpha\nbeta\ngamma\n";
    let start = text.find("beta").unwrap();
    let end = start + "beta".len();
    let a = Anchor::create(text, Range { start, end });
    let changed = "alpha\nNEW\nbeta\ngamma\n";
    let resolved = a.resolve(changed).expect("should resolve");
    assert_eq!(&changed[resolved.start..resolved.end], "beta");
}

#[test]
fn document_id_roundtrip() {
    let id = DocumentId::random();
    let s = id.encode();
    let back: DocumentId = DocumentId::decode(&s).unwrap();
    assert_eq!(id.0, back.0);
}

#[test]
fn normalizes_crlf_only() {
    assert_eq!(normalize_eol("a\r\nb\r\nc"), "a\nb\nc");
    // a lone CR is not a line ending and is preserved
    assert_eq!(normalize_eol("a\rb"), "a\rb");
    // non-overlapping left-to-right replacement
    assert_eq!(normalize_eol("a\r\r\nb"), "a\r\nb");
}

#[test]
fn line_splitting_edges() {
    assert_eq!(to_lines(""), Vec::<String>::new());
    assert_eq!(to_lines("\n"), vec![""]);
    assert_eq!(to_lines("a\nb\n"), vec!["a", "b"]);
    assert_eq!(to_lines("a\n\nb"), vec!["a", "", "b"]);
    // a lone CR does not split a line
    assert_eq!(to_lines("a\rb\nc"), vec!["a\rb", "c"]);
}

#[test]
fn range_len_and_is_empty() {
    let r = Range { start: 2, end: 5 };
    assert_eq!(r.len(), 3);
    assert!(!r.is_empty());
    let inverted = Range { start: 5, end: 2 };
    assert_eq!(inverted.len(), 0);
    assert!(inverted.is_empty());
    assert!(Range { start: 4, end: 4 }.is_empty());
}

#[test]
fn create_clamps_out_of_bounds_ranges() {
    // end beyond the text, start beyond the text, inverted pair: all repaired
    let a = Anchor::create("abc", Range { start: 1, end: 99 });
    assert_eq!(a.target, "bc");
    let b = Anchor::create("abc", Range { start: 99, end: 100 });
    assert_eq!(b.target, "");
    assert_eq!(b.before, "abc");
    let c = Anchor::create("abc", Range { start: 2, end: 1 });
    assert_eq!(c.target, "");
}

#[test]
fn create_range_uses_normalized_positions() {
    // the range is meant for the normalized text: "beta" in the CRLF source
    let text = "alpha\r\nbeta\r\ngamma\r\n";
    let normalized = normalize_eol(text);
    let start = normalized.find("beta").unwrap();
    let a = Anchor::create(text, Range { start, end: start + 4 });
    assert_eq!(a.target, "beta");
    assert_eq!(a.before, "alpha\n");
}

#[test]
fn context_window_is_bounded() {
    let long = "x".repeat(200);
    let a = Anchor::create(&long, Range { start: 100, end: 104 });
    assert_eq!(a.before.len(), CONTEXT);
    assert_eq!(a.after.len(), CONTEXT);
    assert!(a.before.len() <= CONTEXT && a.after.len() <= CONTEXT);
}

#[test]
fn resolve_on_unchanged_text_reproduces_target() {
    let text = "one two three two one";
    let start = text.find("three").unwrap();
    let a = Anchor::create(text, Range { start, end: start + 5 });
    let r = a.resolve(text).expect("must resolve against its own source");
    assert_eq!(&text[r.start..r.end], "three");
    assert_eq!(r.start, start);
}

#[test]
fn empty_target_never_resolves() {
    let a = Anchor::create("alpha\nbeta\n", Range { start: 3, end: 3 });
    assert_eq!(a.target, "");
    assert!(a.resolve("alpha\nbeta\n").is_none());
    assert!(a.resolve("").is_none());
    assert!(a.resolve("anything at all").is_none());
}

#[test]
fn ambiguous_target_prefers_matching_context() {
    let text = "x foo y\nz foo w\n";
    let start = text.find("foo").unwrap();
    let a = Anchor::create(text, Range { start, end: start + 3 });
    // a line inserted above shifts both occurrences; contexts are intact
    let changed = "NEW\nx foo y\nz foo w\n";
    let r = a.resolve(changed).expect("should resolve");
    assert_eq!(&changed[r.start..r.end], "foo");
    // the occurrence with context "x " / " y", not the later one
    assert_eq!(r.start, changed.find("x foo").unwrap() + 2);
}

#[test]
fn falls_back_to_first_occurrence_without_context() {
    let text = "x foo y\nz foo w\n";
    let start = text.find("foo").unwrap();
    let a = Anchor::create(text, Range { start, end: start + 3 });
    // both original contexts are gone; the first occurrence wins
    let changed = "a foo b\nc foo d\n";
    let r = a.resolve(changed).expect("should fall back");
    assert_eq!(&changed[r.start..r.end], "foo");
    assert_eq!(r.start, changed.find("foo").unwrap());
}

#[test]
fn total_loss_reports_not_found() {
    let text = "alpha\nbeta\ngamma\n";
    let start = text.find("beta").unwrap();
    let a = Anchor::create(text, Range { start, end: start + 4 });
    assert!(a.resolve("alpha\ngamma\n").is_none());
}

#[test]
fn resolve_normalizes_the_new_text() {
    let text = "alpha\nbeta\ngamma\n";
    let start = text.find("beta").unwrap();
    let a = Anchor::create(text, Range { start, end: start + 4 });
    // the edited document comes back with CRLF endings
    let changed = "alpha\r\nNEW\r\nbeta\r\ngamma\r\n";
    let r = a.resolve(changed).expect("should resolve");
    let normalized = normalize_eol(changed);
    assert_eq!(&normalized[r.start..r.end], "beta");
}

#[test]
fn document_ids_are_distinct() {
    let a = DocumentId::random();
    let b = DocumentId::random();
    assert_ne!(a, b);
}

#[test]
fn document_id_encoding_is_exact() {
    assert_eq!(DocumentId(0).encode(), "00000000000000000000000000000000");
    assert_eq!(DocumentId(255).encode(), "000000000000000000000000000000ff");
    assert_eq!(
        DocumentId(0xa1a2a3a4b1b2c1c2d1d2d3d4d5d6d7d8).encode(),
        "a1a2a3a4b1b2c1c2d1d2d3d4d5d6d7d8"
    );
    assert_eq!(
        DocumentId::decode("a1a2a3a4b1b2c1c2d1d2d3d4d5d6d7d8"),
        Some(DocumentId(0xa1a2a3a4b1b2c1c2d1d2d3d4d5d6d7d8))
    );
    assert_eq!(DocumentId::decode(""), None);
    assert_eq!(DocumentId::decode("zz"), None);
    assert_eq!(DocumentId::decode("0000000000000000000000000000000g"), None);
    // uppercase digits are not the persistent form
    assert_eq!(DocumentId::decode("A1A2A3A4B1B2C1C2D1D2D3D4D5D6D7D8"), None);
}

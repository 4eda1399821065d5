use amata::diff::{DiffSummary, FieldDiff, ObjectDiff, ObjectDiffStatus, SemanticDiff, SymbolDiff};

fn change(field: &str, old: &str, new: &str) -> FieldDiff {
    FieldDiff { field: field.to_string(), old_value: old.to_string(), new_value: new.to_string() }
}

fn object(id: &str, name: &str, ty: &str, status: ObjectDiffStatus) -> ObjectDiff {
    ObjectDiff { id: id.to_string(), name: name.to_string(), object_type: ty.to_string(), status }
}

fn summary(a: usize, r: usize, m: usize, u: usize) -> DiffSummary {
    DiffSummary { added_count: a, removed_count: r, modified_count: m, unchanged_count: u }
}

#[test]
fn empty_report_is_one_sentence() {
    let d = SemanticDiff::default();
    assert!(d.is_empty());
    assert_eq!(d.format_text(), "No semantic differences detected. Documents are functionally identical.\n");
    let mut d2 = SemanticDiff::default();
    d2.summary.unchanged_count = 7;
    assert!(d2.is_empty(), "unchanged objects are no difference");
}

#[test]
fn full_report_layout() {
    let d = SemanticDiff {
        summary: summary(1, 1, 1, 12),
        objects: vec![
            object("r1", "Rect", "Rectangle", ObjectDiffStatus::Modified {
                changes: vec![change("fill", "#ff0000", "#00ff00"), change("size", "10.0x10.0", "20.0x10.0")],
            }),
            object("", "Label", "Text", ObjectDiffStatus::Added),
            object("e9", "Ellipse", "Ellipse", ObjectDiffStatus::Removed),
        ],
        symbols: vec![
            SymbolDiff { id: "s1".to_string(), name: "Star".to_string(), status: ObjectDiffStatus::Added },
            SymbolDiff {
                id: "s2".to_string(),
                name: "Logo".to_string(),
                status: ObjectDiffStatus::Modified { changes: vec![change("opacity", "1.00", "0.50")] },
            },
        ],
    };
    assert!(!d.is_empty());
    let expected = "Modified:\n  #r1 (Rectangle)\n    fill: #ff0000 -> #00ff00\n    size: 10.0x10.0 -> 20.0x10.0\n\n\
Added:\n  \"Label\" (Text)\n\n\
Removed:\n  #e9 (Ellipse)\n\n\
Symbols / Components:\n  Added Symbol: #s1\n  Modified Symbol: #s2\n    opacity: 1.00 -> 0.50\n\n\
Summary: 1 added, 1 removed, 1 modified, 12 unchanged\n";
    assert_eq!(d.format_text(), expected);
}

#[test]
fn sections_without_entries_are_left_out() {
    let d = SemanticDiff {
        summary: summary(0, 2, 0, 0),
        objects: vec![
            object("a", "A", "Path", ObjectDiffStatus::Removed),
            object("b", "B", "Star", ObjectDiffStatus::Removed),
        ],
        symbols: vec![],
    };
    assert_eq!(d.format_text(), "Removed:\n  #a (Path)\n  #b (Star)\n\nSummary: 0 added, 2 removed, 0 modified, 0 unchanged\n");
}

#[test]
fn symbol_only_change_is_a_difference() {
    let d = SemanticDiff {
        summary: summary(0, 0, 0, 3),
        objects: vec![],
        symbols: vec![SymbolDiff { id: "x".to_string(), name: "X".to_string(), status: ObjectDiffStatus::Removed }],
    };
    assert!(!d.is_empty());
    assert_eq!(d.format_text(), "Symbols / Components:\n  Removed Symbol: #x\n\nSummary: 0 added, 0 removed, 0 modified, 3 unchanged\n");
}

#[test]
fn change_counts_by_category() {
    let d = SemanticDiff {
        summary: summary(1, 0, 3, 0),
        objects: vec![
            object("t", "T", "Text", ObjectDiffStatus::Modified {
                changes: vec![change("text", "\"a\"", "\"b\""), change("position", "(0.0, 0.0)", "(1.0, 0.0)")],
            }),
            object("p", "P", "Path", ObjectDiffStatus::Modified { changes: vec![change("node-count", "4", "5")] }),
            object("q", "Q", "Rectangle", ObjectDiffStatus::Modified {
                changes: vec![change("stroke", "none", "#000000 (width: 1.0)"), change("rotation", "0.0°", "45.0°"), change("scale", "(1.00, 1.00)", "(2.00, 2.00)")],
            }),
            object("n", "N", "Text", ObjectDiffStatus::Added),
        ],
        symbols: vec![],
    };
    assert_eq!(d.count_text_changes(), 1);
    assert_eq!(d.count_geometry_changes(), 1);
    assert_eq!(d.count_style_changes(), 1);
    assert_eq!(d.count_transform_changes(), 2, "an object counts once however many of its fields moved");
}

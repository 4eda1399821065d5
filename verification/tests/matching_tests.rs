use amata::diff::{assemble_diff, symbol_diffs, symbol_pairs, FieldDiff, ObjectDiffStatus, SymbolEntry};
use amata::matching::{is_explicit_id, match_objects, DiffEntry, Matching};

fn entry(layer: &str, id: &str, name: &str, ty: &str) -> DiffEntry {
    DiffEntry { layer: layer.to_string(), id: id.to_string(), name: name.to_string(), object_type: ty.to_string() }
}

fn table(rows: &[&[f64]]) -> Vec<Vec<u64>> {
    rows.iter().map(|r| r.iter().map(|d| d.to_bits()).collect()).collect()
}

#[test]
fn explicit_ids() {
    assert!(is_explicit_id("logo"));
    assert!(is_explicit_id("aut"));
    assert!(is_explicit_id("autox"));
    assert!(!is_explicit_id(""));
    assert!(!is_explicit_id("auto_12"));
    assert!(!is_explicit_id("auto_"));
}

#[test]
fn ids_pair_first_then_geometry() {
    let a = vec![
        entry("L1", "logo", "Logo", "Path"),
        entry("L1", "", "r1", "Rectangle"),
        entry("L1", "auto_3", "e1", "Ellipse"),
    ];
    let b = vec![
        entry("L1", "auto_9", "e1", "Ellipse"),
        entry("L1", "", "r1", "Rectangle"),
        entry("L2", "logo", "Logo", "Path"),
        entry("L1", "", "new", "Star"),
    ];
    let scores = table(&[
        &[500.0, 500.0, 0.0, 500.0],
        &[9.0, 0.0, 9.0, 9.0],
        &[0.005, 9.0, 9.0, 9.0],
    ]);
    let m = match_objects(&a, &b, &scores);
    assert_eq!(m.pairs, vec![(0, 2), (1, 1), (2, 0)]);
    assert!(m.removed.is_empty());
    assert_eq!(m.added, vec![3]);
}

#[test]
fn closest_of_its_type_within_limit() {
    let a = vec![entry("L", "", "a0", "Text"), entry("L", "", "a1", "Text")];
    let b = vec![entry("L", "", "b0", "Text"), entry("L", "", "b1", "Text"), entry("L", "", "b2", "Path")];
    let scores = table(&[&[40.0, 20.0, 1.0], &[20.0, 400.0, 0.0]]);
    let m = match_objects(&a, &b, &scores);
    // a0 takes b1 (closest Text); a1's only free Text candidate is b0.
    assert_eq!(m.pairs, vec![(0, 1), (1, 0)]);
    let far = table(&[&[400.0, 300.0, 0.0], &[f64::NAN, 350.0, 0.0]]);
    let m2 = match_objects(&a, &b, &far);
    assert!(m2.pairs.is_empty());
    assert_eq!(m2.removed, vec![0, 1]);
    assert_eq!(m2.added, vec![0, 1, 2]);
}

#[test]
fn duplicate_explicit_ids_keep_the_last() {
    let a = vec![entry("L", "x", "first", "Path"), entry("L", "x", "second", "Path")];
    let b = vec![entry("L", "x", "only", "Path")];
    let m = match_objects(&a, &b, &table(&[&[0.0], &[0.0]]));
    assert_eq!(m.pairs, vec![(1, 0)]);
    assert!(m.removed.is_empty());
    assert!(m.added.is_empty());
}

#[test]
fn assembled_records_and_counts() {
    let a = vec![entry("L1", "a", "A", "Path"), entry("L1", "b", "B", "Star"), entry("L1", "c", "C", "Text")];
    let b = vec![entry("L1", "b", "B2", "Star"), entry("L2", "a", "A", "Path"), entry("L1", "", "N", "Line")];
    let m = Matching { pairs: vec![(0, 1), (1, 0)], removed: vec![2], added: vec![2] };
    let changes = vec![vec![], vec![FieldDiff { field: "fill".into(), old_value: "none".into(), new_value: "#000000".into() }]];
    let d = assemble_diff(&a, &b, &m, &changes, vec![]);
    assert_eq!(d.summary.modified_count, 2);
    assert_eq!(d.summary.unchanged_count, 0);
    assert_eq!(d.summary.added_count, 1);
    assert_eq!(d.summary.removed_count, 1);
    assert_eq!(d.objects.len(), 4);
    assert_eq!(d.objects[0].id, "a");
    match &d.objects[0].status {
        ObjectDiffStatus::Modified { changes } => {
            assert_eq!(changes[0].field, "group membership");
            assert_eq!(changes[0].old_value, "L1");
            assert_eq!(changes[0].new_value, "L2");
            assert_eq!(changes[1].field, "z-order");
            assert_eq!(changes[1].old_value, "index 0");
            assert_eq!(changes[1].new_value, "index 1");
        }
        other => panic!("unexpected {other:?}"),
    }
    assert_eq!(d.objects[1].name, "B2");
    assert_eq!(d.objects[2].status, ObjectDiffStatus::Added);
    assert_eq!(d.objects[2].name, "N");
    assert_eq!(d.objects[3].status, ObjectDiffStatus::Removed);
    assert_eq!(d.objects[3].id, "c");
}

#[test]
fn unchanged_pairs_are_counted_not_listed() {
    let a = vec![entry("L", "a", "A", "Path")];
    let b = vec![entry("L", "a", "A", "Path")];
    let m = Matching { pairs: vec![(0, 0)], removed: vec![], added: vec![] };
    let d = assemble_diff(&a, &b, &m, &vec![vec![]], vec![]);
    assert!(d.objects.is_empty());
    assert_eq!(d.summary.unchanged_count, 1);
    assert!(d.is_empty());
}

#[test]
fn symbols_by_id() {
    let sa = vec![
        SymbolEntry { id: "s1".into(), name: "One".into() },
        SymbolEntry { id: "s2".into(), name: "Two".into() },
        SymbolEntry { id: "s3".into(), name: "Three".into() },
    ];
    let sb = vec![SymbolEntry { id: "s2".into(), name: "Two b".into() }, SymbolEntry { id: "s1".into(), name: "One b".into() }, SymbolEntry { id: "s4".into(), name: "Four".into() }];
    let pairs = symbol_pairs(&sa, &sb);
    assert_eq!(pairs, vec![(0, 1), (1, 0)]);
    let changes = vec![vec![FieldDiff { field: "opacity".into(), old_value: "1.00".into(), new_value: "0.50".into() }], vec![]];
    let syms = symbol_diffs(&sa, &sb, &changes);
    assert_eq!(syms.len(), 3);
    assert_eq!(syms[0].id, "s1");
    assert_eq!(syms[0].name, "One b");
    assert!(matches!(syms[0].status, ObjectDiffStatus::Modified { .. }));
    assert_eq!(syms[1].id, "s3");
    assert_eq!(syms[1].status, ObjectDiffStatus::Removed);
    assert_eq!(syms[2].id, "s4");
    assert_eq!(syms[2].status, ObjectDiffStatus::Added);
}

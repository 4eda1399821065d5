use amata::commands::{
    Shape, AddLayerCommand, AddObjectCommand, BatchCommand, LayerCommand, ModifyPathCommand, ModifyTextCommand,
    ObjectCommand, RemoveLayerCommand, RemoveObjectCommand, ReorderLayersCommand, ReorderObjectsCommand,
};
use amata::document::{Document, Layer, Nesting, Object};
use amata::history::{Command, Named, UndoManager, MAX_UNDO_STEPS};

fn named(id: &str) -> Object<()> {
    Object { id: id.to_string(), name: id.to_string(), data: (), nesting: Nesting::Leaf }
}

fn ids(doc: &Document<()>, layer: usize) -> Vec<String> {
    doc.layers[layer].objects.iter().map(|o| o.id.clone()).collect()
}

#[test]
fn undo_reverts_and_redo_reapplies_an_add() {
    let mut doc: Document<()> = Document::new();
    let mut um: UndoManager<AddObjectCommand<()>> = UndoManager::new();
    assert!(!um.is_dirty());
    um.execute(AddObjectCommand::new(named("a")), &mut doc);
    assert_eq!(ids(&doc, 0), vec!["a"]);
    assert!(um.is_dirty());
    assert_eq!(um.undo_name(), Some("Add Object"));
    assert_eq!(um.undo(&mut doc), Some("Add Object".to_string()));
    assert!(ids(&doc, 0).is_empty());
    assert!(!um.is_dirty(), "back at the saved state");
    assert!(um.can_redo());
    assert_eq!(um.redo_name(), Some("Add Object"));
    assert_eq!(um.redo(&mut doc), Some("Add Object".to_string()));
    assert_eq!(um.redo_name(), None);
    assert_eq!(ids(&doc, 0), vec!["a"]);
    assert_eq!(um.undo_depth(), 1);
    assert_eq!(um.redo_depth(), 0);
}

#[test]
fn new_command_clears_redo_and_history_is_bounded() {
    let mut doc: Document<()> = Document::new();
    let mut um: UndoManager<AddObjectCommand<()>> = UndoManager::new();
    for i in 0..(MAX_UNDO_STEPS + 5) {
        um.execute(AddObjectCommand::new(named(&format!("o{i}"))), &mut doc);
    }
    assert_eq!(um.undo_depth(), MAX_UNDO_STEPS);
    um.undo(&mut doc);
    assert!(um.can_redo());
    um.execute(AddObjectCommand::new(named("z")), &mut doc);
    assert!(!um.can_redo());
    um.mark_saved();
    assert!(!um.is_dirty());
    um.mark_dirty();
    assert!(um.is_dirty());
    um.clear();
    assert!(!um.can_undo());
}

#[test]
fn undo_on_empty_history_does_nothing() {
    let mut doc: Document<()> = Document::new();
    let mut um: UndoManager<AddObjectCommand<()>> = UndoManager::new();
    assert_eq!(um.undo(&mut doc), None);
    assert_eq!(um.redo(&mut doc), None);
    assert_eq!(um.undo_name(), None);
}

#[test]
fn remove_command_restores_nested_position() {
    let mut doc: Document<()> = Document::new();
    doc.add_object(Object { id: "g".into(), name: "g".into(), data: (), nesting: Nesting::Group(vec![named("x"), named("y"), named("z")]) });
    let y = doc.find_object("y").unwrap().duplicate();
    let cmd = RemoveObjectCommand::new_nested(y, "g".to_string(), 0, 1);
    cmd.execute(&mut doc);
    assert!(doc.find_object("y").is_none());
    cmd.undo(&mut doc);
    assert_eq!(doc.parent_of("y"), Some((Some("g".to_string()), 0, 1)));
    assert_eq!(cmd.name(), "Remove Object");
}

#[test]
fn remove_command_at_top_level() {
    let mut doc: Document<()> = Document::new();
    doc.add_object(named("a"));
    doc.add_object(named("b"));
    doc.add_object(named("c"));
    let b = doc.find_object("b").unwrap().duplicate();
    let cmd = RemoveObjectCommand::new(b, 0, 1);
    cmd.execute(&mut doc);
    assert_eq!(ids(&doc, 0), vec!["a", "c"]);
    cmd.undo(&mut doc);
    assert_eq!(ids(&doc, 0), vec!["a", "b", "c"]);
}

#[test]
fn object_command_swaps_versions() {
    let mut doc: Document<()> = Document::new();
    doc.add_object(named("a"));
    let old = named("a");
    let mut new = named("a");
    new.name = "renamed".to_string();
    let cmd = ObjectCommand { object_id: "a".to_string(), old_obj: old, new_obj: new };
    cmd.execute(&mut doc);
    assert_eq!(doc.find_object("a").unwrap().name, "renamed");
    cmd.undo(&mut doc);
    assert_eq!(doc.find_object("a").unwrap().name, "a");
}

#[test]
fn layer_commands_round_trip() {
    let mut doc: Document<()> = Document::new();
    let add = AddLayerCommand { layer: Layer::new("Extra"), index: 1, prev_active: 0 };
    add.execute(&mut doc);
    assert_eq!(doc.layers.len(), 2);
    assert_eq!(doc.layers[1].name, "Extra");
    add.undo(&mut doc);
    assert_eq!(doc.layers.len(), 1);
    assert_eq!(doc.active_layer_idx, 0);

    doc.layers.push(Layer::new("Second"));
    let second = doc.layers[1].duplicate();
    let rm = RemoveLayerCommand { layer: second, index: 1 };
    rm.execute(&mut doc);
    assert_eq!(doc.layers.len(), 1);
    rm.undo(&mut doc);
    assert_eq!(doc.layers[1].name, "Second");

    let old_layer = doc.layers[0].duplicate();
    let mut new_layer = doc.layers[0].duplicate();
    new_layer.visible = false;
    let lc = LayerCommand { layer_id: old_layer.id.clone(), old_layer, new_layer };
    lc.execute(&mut doc);
    assert!(!doc.layers[0].visible);
    lc.undo(&mut doc);
    assert!(doc.layers[0].visible);
}

#[test]
fn reorder_commands_round_trip() {
    let mut doc: Document<()> = Document::new();
    doc.add_object(named("a"));
    doc.add_object(named("b"));
    doc.add_object(named("c"));
    let layer_id = doc.layers[0].id.clone();
    let cmd = ReorderObjectsCommand {
        layer_id,
        old_order: vec!["a".into(), "b".into(), "c".into()],
        new_order: vec!["c".into(), "b".into(), "a".into()],
    };
    cmd.execute(&mut doc);
    assert_eq!(ids(&doc, 0), vec!["c", "b", "a"]);
    cmd.undo(&mut doc);
    assert_eq!(ids(&doc, 0), vec!["a", "b", "c"]);

    doc.layers.push(Layer::new("Top"));
    let l0 = doc.layers[0].id.clone();
    let l1 = doc.layers[1].id.clone();
    let rl = ReorderLayersCommand { old_order: vec![l0.clone(), l1.clone()], new_order: vec![l1.clone(), l0.clone()] };
    rl.execute(&mut doc);
    assert_eq!(doc.layers[0].id, l1);
    rl.undo(&mut doc);
    assert_eq!(doc.layers[0].id, l0);
}

#[test]
fn batch_and_edit_commands_keep_their_data() {
    let batch = BatchCommand::new("Group", vec![AddObjectCommand::new(named("a")), AddObjectCommand::new(named("b"))]);
    assert_eq!(batch.name(), "Group");
    let mut doc: Document<()> = Document::new();
    batch.execute(&mut doc);
    assert_eq!(ids(&doc, 0), vec!["a", "b"]);
    batch.undo(&mut doc);
    assert!(ids(&doc, 0).is_empty());

    let mp = ModifyPathCommand::new("p1", vec![1u8, 2], vec![3u8]);
    assert_eq!(mp.object_id, "p1");
    assert_eq!(mp.new_elements, vec![3u8]);
    assert_eq!(mp.name(), "Edit Path Nodes");
    let mt = ModifyTextCommand::new("t1", "old".to_string(), 1u8, "new".to_string(), 2u8);
    assert_eq!(mt.object_id, "t1");
    assert_eq!(mt.new_text, "new");
}

#[test]
fn add_layer_undo_restores_exact_state() {
    let mut doc: Document<()> = Document::new();
    doc.layers.push(Layer::new("Two"));
    doc.layers.push(Layer::new("Three"));
    doc.active_layer_idx = 2;
    let before: Vec<String> = doc.layers.iter().map(|l| l.id.clone()).collect();
    let add = AddLayerCommand { layer: Layer::new("Inserted"), index: 1, prev_active: 2 };
    add.execute(&mut doc);
    assert_eq!(doc.layers[1].name, "Inserted");
    assert_eq!(doc.active_layer_idx, 1);
    add.undo(&mut doc);
    let after: Vec<String> = doc.layers.iter().map(|l| l.id.clone()).collect();
    assert_eq!(after, before);
    assert_eq!(doc.active_layer_idx, 2);
}

#[test]
fn batch_undoes_in_reverse_order() {
    let mut doc: Document<()> = Document::new();
    doc.add_object(named("a"));
    doc.add_object(named("b"));
    doc.add_object(named("c"));
    // Removing "a" at 0, then "b", which is then at 0.
    let batch = BatchCommand::new("Remove two", vec![
        RemoveObjectCommand::new(named("a"), 0, 0),
        RemoveObjectCommand::new(named("b"), 0, 0),
    ]);
    batch.execute(&mut doc);
    assert_eq!(ids(&doc, 0), vec!["c"]);
    batch.undo(&mut doc);
    assert_eq!(ids(&doc, 0), vec!["a", "b", "c"]);
}

#[test]
fn located_nested_remove_then_undo_restores() {
    let mut doc: Document<()> = Document::new();
    let inner = Object { id: "h".into(), name: "h".into(), data: (), nesting: Nesting::Group(vec![named("p"), named("q"), named("r")]) };
    doc.add_object(named("a"));
    doc.add_object(Object { id: "g".into(), name: "g".into(), data: (), nesting: Nesting::Group(vec![named("x"), inner]) });
    let q = doc.find_object("q").unwrap().duplicate();
    let cmd = RemoveObjectCommand::located(q, &doc);
    assert_eq!(cmd.parent, Some("h".to_string()));
    assert_eq!((cmd.layer_idx, cmd.position), (0, 1));
    cmd.execute(&mut doc);
    assert!(doc.find_object("q").is_none());
    cmd.undo(&mut doc);
    assert_eq!(doc.parent_of("q"), Some((Some("h".to_string()), 0, 1)));
    assert_eq!(doc.parent_of("p"), Some((Some("h".to_string()), 0, 0)));
    assert_eq!(doc.parent_of("r"), Some((Some("h".to_string()), 0, 2)));
    assert_eq!(doc.parent_of("h"), Some((Some("g".to_string()), 0, 1)));
    assert_eq!(ids(&doc, 0), vec!["a", "g"]);
}

#[test]
fn execute_always_leaves_the_manager_dirty() {
    let mut doc: Document<()> = Document::new();
    let mut um: UndoManager<AddObjectCommand<()>> = UndoManager::new();
    um.execute(AddObjectCommand::new(named("a")), &mut doc);
    um.mark_saved();
    um.undo(&mut doc);
    assert!(um.is_dirty());
    um.execute(AddObjectCommand::new(named("b")), &mut doc);
    assert!(um.is_dirty());
}

#[test]
fn a_fresh_manager_can_record() {
    let um: UndoManager<AddObjectCommand<()>> = UndoManager::new();
    assert!(um.can_record());
    assert_eq!(um.undo_depth(), 0);
    assert_eq!(um.redo_depth(), 0);
}

fn shape_obj(id: &str, data: Shape<u8, u8, ()>) -> Object<Shape<u8, u8, ()>> {
    Object { id: id.to_string(), name: id.to_string(), data, nesting: Nesting::Leaf }
}

fn path_of(doc: &Document<Shape<u8, u8, ()>>, id: &str) -> Option<Vec<u8>> {
    match &doc.find_object(id)?.data {
        Shape::Path(v) => Some(v.clone()),
        _ => None,
    }
}

#[test]
fn modify_path_edits_and_restores_path_nodes() {
    let mut doc: Document<Shape<u8, u8, ()>> = Document::new();
    doc.add_object(shape_obj("p1", Shape::Path(vec![1, 2])));
    doc.add_object(shape_obj("o1", Shape::Other(())));
    let cmd = ModifyPathCommand::new("p1", vec![1u8, 2], vec![3u8]);
    Command::<Document<Shape<u8, u8, ()>>>::execute(&cmd, &mut doc);
    assert_eq!(path_of(&doc, "p1"), Some(vec![3]));
    Command::<Document<Shape<u8, u8, ()>>>::undo(&cmd, &mut doc);
    assert_eq!(path_of(&doc, "p1"), Some(vec![1, 2]));
    // A non-path object is left alone.
    let other = ModifyPathCommand::new("o1", vec![], vec![9u8]);
    Command::<Document<Shape<u8, u8, ()>>>::execute(&other, &mut doc);
    assert!(matches!(doc.find_object("o1").unwrap().data, Shape::Other(())));
}

#[test]
fn modify_text_sets_text_and_typography() {
    let mut doc: Document<Shape<u8, u8, ()>> = Document::new();
    doc.add_object(shape_obj("t1", Shape::Text { text: "old".to_string(), style: 1 }));
    let cmd = ModifyTextCommand::new("t1", "old".to_string(), 1u8, "new".to_string(), 2u8);
    Command::<Document<Shape<u8, u8, ()>>>::execute(&cmd, &mut doc);
    match &doc.find_object("t1").unwrap().data {
        Shape::Text { text, style } => assert_eq!((text.as_str(), *style), ("new", 2)),
        _ => panic!("not a text"),
    }
    Command::<Document<Shape<u8, u8, ()>>>::undo(&cmd, &mut doc);
    match &doc.find_object("t1").unwrap().data {
        Shape::Text { text, style } => assert_eq!((text.as_str(), *style), ("old", 1)),
        _ => panic!("not a text"),
    }
}

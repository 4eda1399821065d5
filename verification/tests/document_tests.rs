use amata::document::{Document, Layer, Nesting, Object, Symbol};
use amata::ordering::apply_id_order;

fn leaf(name: &str) -> Object<()> {
    Object { id: uuid::Uuid::new_v4().to_string(), name: name.to_string(), data: (), nesting: Nesting::Leaf }
}

fn group(name: &str, kids: Vec<Object<()>>) -> Object<()> {
    Object { id: uuid::Uuid::new_v4().to_string(), name: name.to_string(), data: (), nesting: Nesting::Group(kids) }
}

fn named(id: &str) -> Object<()> {
    Object { id: id.to_string(), name: id.to_string(), data: (), nesting: Nesting::Leaf }
}

fn deep_chain(depth: usize) -> Object<()> {
    let mut obj = leaf("leaf");
    for i in 0..depth {
        obj = group(&format!("g{i}"), vec![obj]);
    }
    obj
}

#[test]
fn deep_nesting_lookup_does_not_overflow() {
    let mut doc: Document<()> = Document::default();
    // Far beyond MAX_NESTING_DEPTH: must return gracefully, not overflow.
    doc.add_object(deep_chain(2000));
    assert!(doc.find_object("missing").is_none());
}

#[test]
fn normal_nesting_lookup_still_works() {
    let mut doc: Document<()> = Document::default();
    let inner = leaf("inner");
    let inner_id = inner.id.clone();
    let g2 = group("g2", vec![inner.duplicate()]);
    let g2_id = g2.id.clone();
    doc.add_object(group("g", vec![g2]));
    assert!(doc.find_object(&inner_id).is_some());
    assert!(doc.find_object_mut(&inner_id).is_some());
    let parent = doc.parent_of(&inner_id).and_then(|(p, _, _)| p);
    assert_eq!(parent.as_deref(), Some(g2_id.as_str()));
}

#[test]
fn new_document_has_one_empty_layer() {
    let doc: Document<()> = Document::new();
    assert_eq!(doc.name, "Untitled");
    assert_eq!(doc.layers.len(), 1);
    assert_eq!(doc.layers[0].name, "Layer 1");
    assert_eq!(doc.active_layer_idx, 0);
    assert_eq!(doc.layers[0].id.len(), 36);
}

#[test]
fn remove_undoes_add() {
    let mut doc: Document<()> = Document::new();
    doc.add_object(named("a"));
    doc.add_object(named("b"));
    let removed = doc.remove_object("b").expect("present");
    assert_eq!(removed.id, "b");
    assert_eq!(doc.layers[0].objects.len(), 1);
    assert_eq!(doc.layers[0].objects[0].id, "a");
    assert!(doc.remove_object("b").is_none());
}

#[test]
fn nested_remove_and_parent() {
    let mut doc: Document<()> = Document::new();
    doc.add_object(Object { id: "g".to_string(), name: "g".to_string(), data: (), nesting: Nesting::Group(vec![named("x"), named("y")]) });
    assert_eq!(doc.parent_of("y"), Some((Some("g".to_string()), 0, 1)));
    assert_eq!(doc.parent_of("g"), Some((None, 0, 0)));
    let y = doc.remove_object("y").expect("nested");
    assert_eq!(y.id, "y");
    assert!(doc.find_object("y").is_none());
    assert!(doc.find_object("x").is_some());
}

#[test]
fn layer_and_object_moves() {
    let mut doc: Document<()> = Document::new();
    doc.layers.push(Layer::new("Layer 2"));
    doc.move_layer_up(0);
    assert_eq!(doc.layers[0].name, "Layer 2");
    assert_eq!(doc.layers[1].name, "Layer 1");
    doc.active_layer_idx = 0;
    doc.add_object(named("a"));
    doc.add_object(named("b"));
    doc.move_object_up(0, 0);
    assert_eq!(doc.layers[0].objects[0].id, "b");
    doc.move_object_to_layer(0, 0, 1);
    assert_eq!(doc.layers[1].objects[0].id, "b");
    assert_eq!(doc.object_by_id("b").map(|(li, _)| li), Some(1));
}

#[test]
fn id_order_puts_listed_first_and_restores() {
    let mut objs = vec![named("a"), named("b"), named("c")];
    apply_id_order(&mut objs, &["c".to_string(), "a".to_string()]);
    let ids: Vec<&str> = objs.iter().map(|o| o.id.as_str()).collect();
    assert_eq!(ids, vec!["c", "a", "b"]);
    apply_id_order(&mut objs, &["a".to_string(), "b".to_string(), "c".to_string()]);
    let ids: Vec<&str> = objs.iter().map(|o| o.id.as_str()).collect();
    assert_eq!(ids, vec!["a", "b", "c"]);
}

#[test]
fn normalize_adds_a_layer_and_clamps_active() {
    let mut doc: Document<()> = Document::new();
    doc.layers.clear();
    doc.active_layer_idx = 5;
    doc.normalize();
    assert_eq!(doc.layers.len(), 1);
    assert_eq!(doc.active_layer_idx, 0);
}

#[test]
fn symbols_by_id_ignore_leading_hashes() {
    let mut doc: Document<()> = Document::new();
    let sym = Symbol::new("Star", named("star"));
    let id = sym.id.clone();
    assert_eq!(id.len(), 36);
    assert_eq!(sym.use_count, 0);
    doc.add_symbol(sym);
    assert_eq!(doc.symbol_by_id(&format!("##{id}")).map(|s| s.name.as_str()), Some("Star"));
    doc.symbol_by_id_mut(&format!("#{id}")).unwrap().use_count = 3;
    assert_eq!(doc.symbols[0].use_count, 3);
    assert!(doc.symbol_by_id("nope").is_none());
    // Adding a symbol with the same id replaces it.
    let mut again = Symbol::new("Star 2", named("s2"));
    again.id = id.clone();
    doc.add_symbol(again);
    assert_eq!(doc.symbols.len(), 1);
    assert_eq!(doc.symbols[0].name, "Star 2");
}

#[test]
fn active_layer_editing() {
    let mut doc: Document<()> = Document::new();
    doc.active_layer_mut().locked = true;
    assert!(doc.layers[0].locked);
    assert_eq!(doc.active_layer().name, "Layer 1");
}

#[test]
fn all_objects_walks_layers_in_order() {
    let mut doc: Document<()> = Document::default();
    doc.add_object(named("a"));
    doc.add_object(named("b"));
    doc.layers.push(Layer::new("Top"));
    doc.layers[1].objects.push(named("c"));
    let all: Vec<(usize, String)> = doc.all_objects().into_iter().map(|(li, o)| (li, o.id.clone())).collect();
    assert_eq!(all, vec![(0, "a".to_string()), (0, "b".to_string()), (1, "c".to_string())]);
}

#[test]
fn normalize_repairs_canvas_size() {
    let mut doc: Document<()> = Document::new();
    assert_eq!(f64::from_bits(doc.width_bits), 1920.0);
    assert_eq!(f64::from_bits(doc.height_bits), 1080.0);
    doc.width_bits = f64::NAN.to_bits();
    doc.height_bits = (-5.0f64).to_bits();
    doc.normalize();
    assert_eq!(f64::from_bits(doc.width_bits), 1920.0);
    assert_eq!(f64::from_bits(doc.height_bits), 1080.0);
    doc.width_bits = 800.5f64.to_bits();
    doc.height_bits = f64::INFINITY.to_bits();
    doc.normalize();
    assert_eq!(f64::from_bits(doc.width_bits), 800.5);
    assert_eq!(f64::from_bits(doc.height_bits), 1080.0);
    doc.height_bits = 0.0f64.to_bits();
    doc.normalize();
    assert_eq!(f64::from_bits(doc.height_bits), 1080.0);
}

use amata::document::{Document, Nesting, Object};

fn named(id: &str, data: usize) -> Object<usize> {
    Object { id: id.to_string(), name: format!("{id} name"), data, nesting: Nesting::Leaf }
}

fn doc_with(ids: &[&str]) -> Document<usize> {
    let mut doc: Document<usize> = Document::default();
    for (i, id) in ids.iter().enumerate() {
        doc.add_object(named(id, i));
    }
    doc
}

#[test]
fn selection_of_two_becomes_a_group_master_and_one_instance() {
    let mut doc = doc_with(&["a", "b", "c"]);
    let sid = doc
        .create_component_from_selection(&["a".to_string(), "c".to_string()], 100, |href: String| href.len())
        .expect("component created");
    assert!(sid.starts_with("comp_"));
    assert_eq!(sid.len(), 13);
    assert_eq!(doc.symbols.len(), 1);
    let sym = &doc.symbols[0];
    assert_eq!(sym.id, sid);
    assert_eq!(sym.name, "Component Master");
    assert_eq!(sym.use_count, 1);
    assert_eq!(sym.object.data, 100);
    match &sym.object.nesting {
        Nesting::Group(kids) => {
            let ids: Vec<&str> = kids.iter().map(|k| k.id.as_str()).collect();
            assert_eq!(ids, vec!["a", "c"]);
        }
        _ => panic!("master must be a group"),
    }
    let objs = &doc.active_layer().objects;
    assert_eq!(objs.len(), 2);
    assert_eq!(objs[0].id, "b");
    assert_eq!(objs[1].name, "Component Master");
    // The instance payload was made from "#comp_xxxxxxxx".
    assert_eq!(objs[1].data, 14);
}

#[test]
fn single_selection_keeps_the_object_as_master() {
    let mut doc = doc_with(&["a", "b"]);
    let sid = doc.create_component_from_selection(&["b".to_string()], 7, |_href: String| 9).unwrap();
    let sym = &doc.symbols[0];
    assert_eq!(sym.id, sid);
    assert_eq!(sym.object.id, "b");
    assert_eq!(sym.name, "b name");
    let objs = &doc.active_layer().objects;
    assert_eq!(objs.len(), 2);
    assert_eq!(objs[1].name, "b name");
    assert_eq!(objs[1].data, 9);
}

#[test]
fn empty_or_unknown_selection_changes_nothing() {
    let mut doc = doc_with(&["a"]);
    assert!(doc.create_component_from_selection(&[], 0, |_h: String| 0).is_none());
    assert!(doc.create_component_from_selection(&["zz".to_string()], 0, |_h: String| 0).is_none());
    assert!(doc.symbols.is_empty());
    assert_eq!(doc.active_layer().objects.len(), 1);
}

#[test]
fn instances_are_named_after_the_symbol() {
    let mut doc = doc_with(&["a"]);
    let sid = doc.create_component_from_selection(&["a".to_string()], 0, |_h: String| 0).unwrap();
    let hash_id = format!("#{sid}");
    let inst = doc.instantiate_component(&hash_id, |href: String| href.len()).unwrap();
    assert_eq!(inst.name, "a name Instance");
    assert_eq!(inst.data, 1 + sid.len());
    assert!(matches!(inst.nesting, Nesting::Leaf));
    assert_ne!(inst.id, "a");
    assert!(doc.instantiate_component("comp_missing", |_h: String| 0).is_none());
}

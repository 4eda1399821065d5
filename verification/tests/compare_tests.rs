use amata::appearance::{FontStyle, TextAnchor};
use amata::compare::{compare_objects, object_type_name, CompareFacts, ObjectKind, PairMeasures, PlainKind, ShapeFacts};
use amata::diff::FieldDiff;

fn still() -> PairMeasures {
    PairMeasures {
        moved: false,
        rescaled: false,
        rotated: false,
        opacity_changed: false,
        font_size_changed: false,
        letter_spacing_changed: false,
        area_changed: false,
        geometry_changed: false,
        size_changed: false,
        corner_radius_changed: false,
        instance_size_changed: false,
        image_size_changed: false,
    }
}

fn facts(shape: ShapeFacts) -> CompareFacts {
    CompareFacts {
        position: "(10.0, 20.0)".to_string(),
        scale: "(1.00, 1.00)".to_string(),
        rotation: "0.0°".to_string(),
        opacity: "1.00".to_string(),
        fill: "#ff0000".to_string(),
        stroke: "none".to_string(),
        shape,
    }
}

fn text_shape(text: &str, weight: u16, style: FontStyle) -> ShapeFacts {
    ShapeFacts::Text {
        text: text.to_string(),
        font_size: "16".to_string(),
        font_family: "Inter".to_string(),
        font_weight: weight,
        font_style: style,
        letter_spacing: "0.0".to_string(),
        text_anchor: TextAnchor::Start,
        area: "point".to_string(),
    }
}

fn change(field: &str, old: &str, new: &str) -> FieldDiff {
    FieldDiff { field: field.to_string(), old_value: old.to_string(), new_value: new.to_string() }
}

#[test]
fn identical_objects_have_no_changes() {
    let a = facts(ShapeFacts::Plain(PlainKind::Ellipse));
    let b = facts(ShapeFacts::Plain(PlainKind::Ellipse));
    assert!(compare_objects(&a, &b, &still()).is_empty());
}

#[test]
fn transform_changes_come_first_in_order() {
    let a = facts(ShapeFacts::Group { child_count: 2 });
    let mut b = facts(ShapeFacts::Group { child_count: 3 });
    b.position = "(15.0, 20.0)".to_string();
    b.opacity = "0.50".to_string();
    b.fill = "#00ff00".to_string();
    let mut m = still();
    m.moved = true;
    m.opacity_changed = true;
    let r = compare_objects(&a, &b, &m);
    assert_eq!(
        r,
        vec![
            change("position", "(10.0, 20.0)", "(15.0, 20.0)"),
            change("opacity", "1.00", "0.50"),
            change("fill", "#ff0000", "#00ff00"),
            change("group-children-count", "2", "3"),
        ]
    );
}

#[test]
fn text_fields_are_quoted_and_rendered() {
    let a = facts(text_shape("Hello", 400, FontStyle::Normal));
    let b = facts(text_shape("World", 700, FontStyle::Italic));
    let r = compare_objects(&a, &b, &still());
    assert_eq!(
        r,
        vec![
            change("text", "\"Hello\"", "\"World\""),
            change("font-weight", "400", "700"),
            change("font-style", "normal", "italic"),
        ]
    );
}

#[test]
fn path_node_count_hides_geometry_change() {
    let a = facts(ShapeFacts::Path { node_count: 4, extent: "10x10".to_string() });
    let b = facts(ShapeFacts::Path { node_count: 5, extent: "12x10".to_string() });
    let mut m = still();
    m.geometry_changed = true;
    assert_eq!(compare_objects(&a, &b, &m), vec![change("node-count", "4", "5")]);
    let c = facts(ShapeFacts::Path { node_count: 4, extent: "12x10".to_string() });
    assert_eq!(compare_objects(&a, &c, &m), vec![change("geometry", "10x10", "12x10")]);
}

#[test]
fn different_kinds_are_reported_by_name() {
    let a = facts(ShapeFacts::Rectangle { size: "10.0x10.0".to_string(), corner_radius: "0.0".to_string() });
    let b = facts(ShapeFacts::Use { href: "#c1".to_string(), size: "NonexNone".to_string() });
    assert_eq!(compare_objects(&a, &b, &still()), vec![change("object-type", "Rectangle", "UseInstance")]);
    let c = facts(ShapeFacts::Plain(PlainKind::Star));
    let d = facts(ShapeFacts::Plain(PlainKind::Polygon));
    assert_eq!(compare_objects(&c, &d, &still()), vec![change("object-type", "Star", "Polygon")]);
}

#[test]
fn image_content_is_compared_by_byte_count() {
    let a = facts(ShapeFacts::Image { size: "64.0x64.0".to_string(), byte_count: 1024 });
    let b = facts(ShapeFacts::Image { size: "64.0x64.0".to_string(), byte_count: 2048 });
    assert_eq!(
        compare_objects(&a, &b, &still()),
        vec![change("image-content", "1024 bytes", "2048 bytes")]
    );
}

#[test]
fn use_instances_compare_href_then_size() {
    let a = facts(ShapeFacts::Use { href: "#a".to_string(), size: "Nonex None".to_string() });
    let b = facts(ShapeFacts::Use { href: "#b".to_string(), size: "Some(10.0)xSome(5.0)".to_string() });
    let mut m = still();
    m.instance_size_changed = true;
    assert_eq!(
        compare_objects(&a, &b, &m),
        vec![change("component-href", "#a", "#b"), change("instance-size", "Nonex None", "Some(10.0)xSome(5.0)")]
    );
}

#[test]
fn type_names_match_the_report_vocabulary() {
    assert_eq!(object_type_name(ObjectKind::Use), "UseInstance");
    assert_eq!(object_type_name(ObjectKind::ClippingMask), "ClippingMask");
    assert_eq!(object_type_name(ObjectKind::PixelArt), "PixelArt");
    assert_eq!(object_type_name(ObjectKind::Path), "Path");
}

#[test]
fn every_kind_compared_with_itself_is_unchanged() {
    let shapes = vec![
        text_shape("Same", 500, FontStyle::Oblique),
        ShapeFacts::Path { node_count: 3, extent: "1x1".to_string() },
        ShapeFacts::Rectangle { size: "1.0x1.0".to_string(), corner_radius: "0.0".to_string() },
        ShapeFacts::Use { href: "#x".to_string(), size: "NonexNone".to_string() },
        ShapeFacts::Image { size: "1.0x1.0".to_string(), byte_count: 3 },
        ShapeFacts::Group { child_count: 0 },
        ShapeFacts::Plain(PlainKind::PixelArt),
    ];
    for s in shapes {
        let a = facts(s);
        assert!(compare_objects(&a, &a.clone(), &still()).is_empty());
    }
}

//! Field-by-field comparison of two paired objects: which fields changed,
//! in which order they are reported, and how their values are rendered.
//! Geometric closeness is measured by the caller (it is floating point)
//! and handed in as `PairMeasures`; every other decision is made here.
use vstd::prelude::*;
use crate::text::{push_char, push_decimal, push_str, str_eq};
use crate::appearance::{FontStyle, TextAnchor, font_style_svg, text_anchor_svg};
use crate::diff::FieldDiff;

verus! {

/// The kind of a document object.
#[derive(PartialEq, Eq, Structural, Clone, Copy, Debug)]
pub enum ObjectKind {
    Path,
    Rectangle,
    Ellipse,
    Line,
    Text,
    Group,
    ClippingMask,
    Star,
    Polygon,
    Use,
    Image,
    PixelArt,
}

/// The name under which a kind of object is reported.
pub open spec fn kind_name(k: ObjectKind) -> Seq<char> {
    match k {
        ObjectKind::Path => "Path"@,
        ObjectKind::Rectangle => "Rectangle"@,
        ObjectKind::Ellipse => "Ellipse"@,
        ObjectKind::Line => "Line"@,
        ObjectKind::Text => "Text"@,
        ObjectKind::Group => "Group"@,
        ObjectKind::ClippingMask => "ClippingMask"@,
        ObjectKind::Star => "Star"@,
        ObjectKind::Polygon => "Polygon"@,
        ObjectKind::Use => "UseInstance"@,
        ObjectKind::Image => "Image"@,
        ObjectKind::PixelArt => "PixelArt"@,
    }
}

/// The name under which a kind of object is reported.
pub fn object_type_name(k: ObjectKind) -> (r: &'static str)
    ensures
        r@ == kind_name(k),
{
    match k {
        ObjectKind::Path => "Path",
        ObjectKind::Rectangle => "Rectangle",
        ObjectKind::Ellipse => "Ellipse",
        ObjectKind::Line => "Line",
        ObjectKind::Text => "Text",
        ObjectKind::Group => "Group",
        ObjectKind::ClippingMask => "ClippingMask",
        ObjectKind::Star => "Star",
        ObjectKind::Polygon => "Polygon",
        ObjectKind::Use => "UseInstance",
        ObjectKind::Image => "Image",
        ObjectKind::PixelArt => "PixelArt",
    }
}

/// The kinds of object whose own fields are not compared.
#[derive(PartialEq, Eq, Structural, Clone, Copy, Debug)]
pub enum PlainKind {
    Ellipse,
    Line,
    ClippingMask,
    Star,
    Polygon,
    PixelArt,
}

/// What the comparison reads of the kind-specific part of an object.
/// Values that are floating point arrive already rendered as text.
#[derive(Clone, Debug)]
pub enum ShapeFacts {
    Text {
        text: String,
        font_size: String,
        font_family: String,
        font_weight: u16,
        font_style: FontStyle,
        letter_spacing: String,
        text_anchor: TextAnchor,
        area: String,
    },
    Path { node_count: usize, extent: String },
    Rectangle { size: String, corner_radius: String },
    Use { href: String, size: String },
    Image { size: String, byte_count: usize },
    Group { child_count: usize },
    Plain(PlainKind),
}

/// What the comparison reads of one object: the rendered transform,
/// opacity, fill and stroke, and the kind-specific part.
#[derive(Clone, Debug)]
pub struct CompareFacts {
    pub position: String,
    pub scale: String,
    pub rotation: String,
    pub opacity: String,
    pub fill: String,
    pub stroke: String,
    pub shape: ShapeFacts,
}

/// The outcome of the caller's tolerance tests on a pair of objects: for
/// each measured quantity, whether the two objects differ beyond its
/// tolerance.
#[derive(Clone, Copy, Debug)]
pub struct PairMeasures {
    pub moved: bool,
    pub rescaled: bool,
    pub rotated: bool,
    pub opacity_changed: bool,
    pub font_size_changed: bool,
    pub letter_spacing_changed: bool,
    pub area_changed: bool,
    pub geometry_changed: bool,
    pub size_changed: bool,
    pub corner_radius_changed: bool,
    pub instance_size_changed: bool,
    pub image_size_changed: bool,
}

/// The kind of object that kind-specific facts describe.
pub open spec fn shape_kind(s: ShapeFacts) -> ObjectKind {
    match s {
        ShapeFacts::Text { .. } => ObjectKind::Text,
        ShapeFacts::Path { .. } => ObjectKind::Path,
        ShapeFacts::Rectangle { .. } => ObjectKind::Rectangle,
        ShapeFacts::Use { .. } => ObjectKind::Use,
        ShapeFacts::Image { .. } => ObjectKind::Image,
        ShapeFacts::Group { .. } => ObjectKind::Group,
        ShapeFacts::Plain(p) => match p {
            PlainKind::Ellipse => ObjectKind::Ellipse,
            PlainKind::Line => ObjectKind::Line,
            PlainKind::ClippingMask => ObjectKind::ClippingMask,
            PlainKind::Star => ObjectKind::Star,
            PlainKind::Polygon => ObjectKind::Polygon,
            PlainKind::PixelArt => ObjectKind::PixelArt,
        },
    }
}

/// A reported change as plain text: field name, old value, new value.
pub type Change = (Seq<char>, Seq<char>, Seq<char>);

/// The plain-text view of a field change.
pub open spec fn change_view(f: FieldDiff) -> Change {
    (f.field@, f.old_value@, f.new_value@)
}

/// The plain-text views of a list of field changes.
pub open spec fn change_views(s: Seq<FieldDiff>) -> Seq<Change> {
    s.map_values(|f: FieldDiff| change_view(f))
}

/// One change when `c` holds, none otherwise.
pub open spec fn change_if(c: bool, field: Seq<char>, old: Seq<char>, new: Seq<char>) -> Seq<Change> {
    if c { seq![(field, old, new)] } else { Seq::empty() }
}

/// A text between double quotes.
pub open spec fn quoted(t: Seq<char>) -> Seq<char> {
    seq!['"'] + t + seq!['"']
}

/// Changes of position, scale, rotation and opacity, in that order.
pub open spec fn transform_changes(a: CompareFacts, b: CompareFacts, m: PairMeasures) -> Seq<Change> {
    change_if(m.moved, "position"@, a.position@, b.position@)
        + change_if(m.rescaled, "scale"@, a.scale@, b.scale@)
        + change_if(m.rotated, "rotation"@, a.rotation@, b.rotation@)
        + change_if(m.opacity_changed, "opacity"@, a.opacity@, b.opacity@)
}

/// Changes of the rendered fill and stroke.
pub open spec fn paint_changes(a: CompareFacts, b: CompareFacts) -> Seq<Change> {
    change_if(a.fill@ != b.fill@, "fill"@, a.fill@, b.fill@)
        + change_if(a.stroke@ != b.stroke@, "stroke"@, a.stroke@, b.stroke@)
}

/// Changes of a text's content, font size, family and weight.
pub open spec fn text_content_changes(ta: Seq<char>, tb: Seq<char>, sa: Seq<char>, sb: Seq<char>,
    fa: Seq<char>, fb: Seq<char>, wa: u16, wb: u16, m: PairMeasures) -> Seq<Change> {
    change_if(ta != tb, "text"@, quoted(ta), quoted(tb))
        + change_if(m.font_size_changed, "font-size"@, sa, sb)
        + change_if(fa != fb, "font-family"@, fa, fb)
        + change_if(wa != wb, "font-weight"@, crate::text::decimal(wa as nat), crate::text::decimal(wb as nat))
}

/// Changes of a text's style, letter spacing, anchor and area.
pub open spec fn text_layout_changes(ya: FontStyle, yb: FontStyle, la: Seq<char>, lb: Seq<char>,
    na: TextAnchor, nb: TextAnchor, ra: Seq<char>, rb: Seq<char>, m: PairMeasures) -> Seq<Change> {
    change_if(ya != yb, "font-style"@, font_style_svg(ya), font_style_svg(yb))
        + change_if(m.letter_spacing_changed, "letter-spacing"@, la, lb)
        + change_if(na != nb, "text-anchor"@, text_anchor_svg(na), text_anchor_svg(nb))
        + change_if(m.area_changed, "text-area"@, ra, rb)
}

/// Changes of the kind-specific fields. Objects of different kinds, and
/// of kinds without fields of their own, are compared by kind name.
pub open spec fn shape_changes(a: ShapeFacts, b: ShapeFacts, m: PairMeasures) -> Seq<Change> {
    match (a, b) {
        (ShapeFacts::Text { text: ta, font_size: sa, font_family: fa, font_weight: wa, font_style: ya,
            letter_spacing: la, text_anchor: na, area: ra },
         ShapeFacts::Text { text: tb, font_size: sb, font_family: fb, font_weight: wb, font_style: yb,
            letter_spacing: lb, text_anchor: nb, area: rb }) =>
            text_content_changes(ta@, tb@, sa@, sb@, fa@, fb@, wa, wb, m)
            + text_layout_changes(ya, yb, la@, lb@, na, nb, ra@, rb@, m),
        (ShapeFacts::Path { node_count: ca, extent: ea }, ShapeFacts::Path { node_count: cb, extent: eb }) =>
            if ca != cb {
                seq![("node-count"@, crate::text::decimal(ca as nat), crate::text::decimal(cb as nat))]
            } else {
                change_if(m.geometry_changed, "geometry"@, ea@, eb@)
            },
        (ShapeFacts::Rectangle { size: sa, corner_radius: ra }, ShapeFacts::Rectangle { size: sb, corner_radius: rb }) =>
            change_if(m.size_changed, "size"@, sa@, sb@)
            + change_if(m.corner_radius_changed, "corner-radius"@, ra@, rb@),
        (ShapeFacts::Use { href: ha, size: sa }, ShapeFacts::Use { href: hb, size: sb }) =>
            change_if(ha@ != hb@, "component-href"@, ha@, hb@)
            + change_if(m.instance_size_changed, "instance-size"@, sa@, sb@),
        (ShapeFacts::Image { size: sa, byte_count: ba }, ShapeFacts::Image { size: sb, byte_count: bb }) =>
            change_if(m.image_size_changed, "image-size"@, sa@, sb@)
            + change_if(ba != bb, "image-content"@, crate::text::decimal(ba as nat) + " bytes"@,
                crate::text::decimal(bb as nat) + " bytes"@),
        (ShapeFacts::Group { child_count: ca }, ShapeFacts::Group { child_count: cb }) =>
            change_if(ca != cb, "group-children-count"@, crate::text::decimal(ca as nat), crate::text::decimal(cb as nat)),
        _ => change_if(kind_name(shape_kind(a)) != kind_name(shape_kind(b)), "object-type"@,
            kind_name(shape_kind(a)), kind_name(shape_kind(b))),
    }
}

/// Every change between two paired objects, in report order.
pub open spec fn object_changes(a: CompareFacts, b: CompareFacts, m: PairMeasures) -> Seq<Change> {
    transform_changes(a, b, m) + paint_changes(a, b) + shape_changes(a.shape, b.shape, m)
}

/// No measured quantity differs beyond its tolerance.
pub open spec fn nothing_measured(m: PairMeasures) -> bool {
    !m.moved && !m.rescaled && !m.rotated && !m.opacity_changed && !m.font_size_changed
        && !m.letter_spacing_changed && !m.area_changed && !m.geometry_changed && !m.size_changed
        && !m.corner_radius_changed && !m.instance_size_changed && !m.image_size_changed
}

/// An object compared with itself, where no measurement differs, shows no
/// change.
pub proof fn law_self_comparison_is_empty(a: CompareFacts, m: PairMeasures)
    requires
        nothing_measured(m),
    ensures
        object_changes(a, a, m) == Seq::<Change>::empty(),
{
    assert(transform_changes(a, a, m) =~= Seq::<Change>::empty());
    assert(paint_changes(a, a) =~= Seq::<Change>::empty());
    assert(shape_changes(a.shape, a.shape, m) =~= Seq::<Change>::empty());
    assert(object_changes(a, a, m) =~= Seq::<Change>::empty());
}

fn push_change(out: &mut Vec<FieldDiff>, field: &str, old_value: String, new_value: String)
    ensures
        change_views(final(out)@) == change_views(old(out)@) + seq![(field@, old_value@, new_value@)],
{
    let ghost before = out@;
    out.push(FieldDiff { field: field.to_string(), old_value, new_value });
    proof {
        assert(change_views(out@) =~= change_views(before) + seq![(field@, old_value@, new_value@)]) by {
            assert(out@ == before.push(out@.last()));
        }
    }
}

fn push_change_if(out: &mut Vec<FieldDiff>, c: bool, field: &str, old_value: String, new_value: String)
    ensures
        change_views(final(out)@) == change_views(old(out)@) + change_if(c, field@, old_value@, new_value@),
{
    if c {
        push_change(out, field, old_value, new_value);
    } else {
        assert(change_views(old(out)@) + change_if(c, field@, old_value@, new_value@) =~= change_views(old(out)@));
    }
}

fn quote(t: &String) -> (r: String)
    ensures
        r@ == quoted(t@),
{
    let mut s = String::new();
    push_char(&mut s, '"');
    push_str(&mut s, t.as_str());
    push_char(&mut s, '"');
    assert(s@ =~= quoted(t@));
    s
}

fn decimal_text(n: usize) -> (r: String)
    ensures
        r@ == crate::text::decimal(n as nat),
{
    let mut s = String::new();
    push_decimal(&mut s, n);
    assert(s@ =~= crate::text::decimal(n as nat));
    s
}

fn byte_count_text(n: usize) -> (r: String)
    ensures
        r@ == crate::text::decimal(n as nat) + " bytes"@,
{
    let mut s = decimal_text(n);
    push_str(&mut s, " bytes");
    s
}

fn push_transform_changes(out: &mut Vec<FieldDiff>, a: &CompareFacts, b: &CompareFacts, m: &PairMeasures)
    ensures
        change_views(final(out)@) == change_views(old(out)@) + transform_changes(*a, *b, *m),
{
    let ghost v0 = change_views(out@);
    push_change_if(out, m.moved, "position", a.position.clone(), b.position.clone());
    push_change_if(out, m.rescaled, "scale", a.scale.clone(), b.scale.clone());
    push_change_if(out, m.rotated, "rotation", a.rotation.clone(), b.rotation.clone());
    push_change_if(out, m.opacity_changed, "opacity", a.opacity.clone(), b.opacity.clone());
    assert(change_views(out@) =~= v0 + transform_changes(*a, *b, *m));
}

fn push_paint_changes(out: &mut Vec<FieldDiff>, a: &CompareFacts, b: &CompareFacts)
    ensures
        change_views(final(out)@) == change_views(old(out)@) + paint_changes(*a, *b),
{
    let ghost v0 = change_views(out@);
    let fill_same = str_eq(a.fill.as_str(), b.fill.as_str());
    push_change_if(out, !fill_same, "fill", a.fill.clone(), b.fill.clone());
    let stroke_same = str_eq(a.stroke.as_str(), b.stroke.as_str());
    push_change_if(out, !stroke_same, "stroke", a.stroke.clone(), b.stroke.clone());
    assert(change_views(out@) =~= v0 + paint_changes(*a, *b));
}

fn push_text_content_changes(out: &mut Vec<FieldDiff>, ta: &String, tb: &String, sa: &String, sb: &String,
    fa: &String, fb: &String, wa: u16, wb: u16, m: &PairMeasures)
    ensures
        change_views(final(out)@) == change_views(old(out)@)
            + text_content_changes(ta@, tb@, sa@, sb@, fa@, fb@, wa, wb, *m),
{
    let ghost v0 = change_views(out@);
    let same = str_eq(ta.as_str(), tb.as_str());
    push_change_if(out, !same, "text", quote(ta), quote(tb));
    push_change_if(out, m.font_size_changed, "font-size", sa.clone(), sb.clone());
    let same = str_eq(fa.as_str(), fb.as_str());
    push_change_if(out, !same, "font-family", fa.clone(), fb.clone());
    push_change_if(out, wa != wb, "font-weight", decimal_text(wa as usize), decimal_text(wb as usize));
    assert(change_views(out@) =~= v0 + text_content_changes(ta@, tb@, sa@, sb@, fa@, fb@, wa, wb, *m));
}

fn push_text_layout_changes(out: &mut Vec<FieldDiff>, ya: FontStyle, yb: FontStyle, la: &String, lb: &String,
    na: TextAnchor, nb: TextAnchor, ra: &String, rb: &String, m: &PairMeasures)
    ensures
        change_views(final(out)@) == change_views(old(out)@)
            + text_layout_changes(ya, yb, la@, lb@, na, nb, ra@, rb@, *m),
{
    let ghost v0 = change_views(out@);
    push_change_if(out, ya != yb, "font-style", ya.as_svg_str().to_string(), yb.as_svg_str().to_string());
    push_change_if(out, m.letter_spacing_changed, "letter-spacing", la.clone(), lb.clone());
    push_change_if(out, na != nb, "text-anchor", na.as_svg_str().to_string(), nb.as_svg_str().to_string());
    push_change_if(out, m.area_changed, "text-area", ra.clone(), rb.clone());
    assert(change_views(out@) =~= v0 + text_layout_changes(ya, yb, la@, lb@, na, nb, ra@, rb@, *m));
}

fn push_text_changes(out: &mut Vec<FieldDiff>, a: &ShapeFacts, b: &ShapeFacts, m: &PairMeasures)
    requires
        a is Text,
        b is Text,
    ensures
        change_views(final(out)@) == change_views(old(out)@) + shape_changes(*a, *b, *m),
{
    let ghost v0 = change_views(out@);
    match (a, b) {
        (ShapeFacts::Text { text: ta, font_size: sa, font_family: fa, font_weight: wa, font_style: ya,
            letter_spacing: la, text_anchor: na, area: ra },
         ShapeFacts::Text { text: tb, font_size: sb, font_family: fb, font_weight: wb, font_style: yb,
            letter_spacing: lb, text_anchor: nb, area: rb }) => {
            push_text_content_changes(out, ta, tb, sa, sb, fa, fb, *wa, *wb, m);
            push_text_layout_changes(out, *ya, *yb, la, lb, *na, *nb, ra, rb, m);
            assert(change_views(out@) =~= v0 + shape_changes(*a, *b, *m));
        },
        _ => {},
    }
}

fn push_shape_changes(out: &mut Vec<FieldDiff>, a: &ShapeFacts, b: &ShapeFacts, m: &PairMeasures)
    ensures
        change_views(final(out)@) == change_views(old(out)@) + shape_changes(*a, *b, *m),
{
    let ghost v0 = change_views(out@);
    match (a, b) {
        (ShapeFacts::Text { .. }, ShapeFacts::Text { .. }) => {
            push_text_changes(out, a, b, m);
        },
        (ShapeFacts::Path { node_count: ca, extent: ea }, ShapeFacts::Path { node_count: cb, extent: eb }) => {
            if *ca != *cb {
                push_change(out, "node-count", decimal_text(*ca), decimal_text(*cb));
            } else {
                push_change_if(out, m.geometry_changed, "geometry", ea.clone(), eb.clone());
            }
        },
        (ShapeFacts::Rectangle { size: sa, corner_radius: ra }, ShapeFacts::Rectangle { size: sb, corner_radius: rb }) => {
            push_change_if(out, m.size_changed, "size", sa.clone(), sb.clone());
            push_change_if(out, m.corner_radius_changed, "corner-radius", ra.clone(), rb.clone());
            assert(change_views(out@) =~= v0 + shape_changes(*a, *b, *m));
        },
        (ShapeFacts::Use { href: ha, size: sa }, ShapeFacts::Use { href: hb, size: sb }) => {
            let same = str_eq(ha.as_str(), hb.as_str());
            push_change_if(out, !same, "component-href", ha.clone(), hb.clone());
            push_change_if(out, m.instance_size_changed, "instance-size", sa.clone(), sb.clone());
            assert(change_views(out@) =~= v0 + shape_changes(*a, *b, *m));
        },
        (ShapeFacts::Image { size: sa, byte_count: ba }, ShapeFacts::Image { size: sb, byte_count: bb }) => {
            push_change_if(out, m.image_size_changed, "image-size", sa.clone(), sb.clone());
            push_change_if(out, *ba != *bb, "image-content", byte_count_text(*ba), byte_count_text(*bb));
            assert(change_views(out@) =~= v0 + shape_changes(*a, *b, *m));
        },
        (ShapeFacts::Group { child_count: ca }, ShapeFacts::Group { child_count: cb }) => {
            push_change_if(out, *ca != *cb, "group-children-count", decimal_text(*ca), decimal_text(*cb));
        },
        _ => {
            let na = object_type_name(facts_kind(a));
            let nb = object_type_name(facts_kind(b));
            let same = str_eq(na, nb);
            push_change_if(out, !same, "object-type", na.to_string(), nb.to_string());
        },
    }
}

/// The kind of object that kind-specific facts describe.
pub fn facts_kind(s: &ShapeFacts) -> (k: ObjectKind)
    ensures
        k == shape_kind(*s),
{
    match s {
        ShapeFacts::Text { .. } => ObjectKind::Text,
        ShapeFacts::Path { .. } => ObjectKind::Path,
        ShapeFacts::Rectangle { .. } => ObjectKind::Rectangle,
        ShapeFacts::Use { .. } => ObjectKind::Use,
        ShapeFacts::Image { .. } => ObjectKind::Image,
        ShapeFacts::Group { .. } => ObjectKind::Group,
        ShapeFacts::Plain(p) => match p {
            PlainKind::Ellipse => ObjectKind::Ellipse,
            PlainKind::Line => ObjectKind::Line,
            PlainKind::ClippingMask => ObjectKind::ClippingMask,
            PlainKind::Star => ObjectKind::Star,
            PlainKind::Polygon => ObjectKind::Polygon,
            PlainKind::PixelArt => ObjectKind::PixelArt,
        },
    }
}

/// The changes between two paired objects, in report order: position,
/// scale, rotation, opacity, fill, stroke, then the kind-specific fields
/// (or the kind names, for objects of different kinds).
pub fn compare_objects(a: &CompareFacts, b: &CompareFacts, m: &PairMeasures) -> (r: Vec<FieldDiff>)
    ensures
        change_views(r@) == object_changes(*a, *b, *m),
{
    let mut out: Vec<FieldDiff> = Vec::new();
    assert(change_views(out@) =~= Seq::<Change>::empty());
    push_transform_changes(&mut out, a, b, m);
    push_paint_changes(&mut out, a, b);
    push_shape_changes(&mut out, &a.shape, &b.shape, m);
    assert(change_views(out@) =~= object_changes(*a, *b, *m));
    out
}

} // verus!

use amata::appearance::{
    default_font_family, default_font_weight, ArrowHead, BlendMode, ColorMode, FontStyle, StrokeCap,
    StrokeJoin, TextAnchor,
};
use amata::blend::BlendMode as CoreBlendMode;

#[test]
fn to_blend_covers_every_document_mode() {
    let expected = [
        (BlendMode::Normal, CoreBlendMode::Normal),
        (BlendMode::Multiply, CoreBlendMode::Multiply),
        (BlendMode::Screen, CoreBlendMode::Screen),
        (BlendMode::Overlay, CoreBlendMode::Overlay),
        (BlendMode::Darken, CoreBlendMode::Darken),
        (BlendMode::Lighten, CoreBlendMode::Lighten),
        (BlendMode::ColorDodge, CoreBlendMode::ColorDodge),
        (BlendMode::ColorBurn, CoreBlendMode::ColorBurn),
        (BlendMode::HardLight, CoreBlendMode::HardLight),
        (BlendMode::SoftLight, CoreBlendMode::SoftLight),
        (BlendMode::Difference, CoreBlendMode::Difference),
        (BlendMode::Exclusion, CoreBlendMode::Exclusion),
        (BlendMode::Hue, CoreBlendMode::Hue),
        (BlendMode::Saturation, CoreBlendMode::Saturation),
        (BlendMode::Color, CoreBlendMode::Color),
        (BlendMode::Luminosity, CoreBlendMode::Luminosity),
    ];
    assert_eq!(BlendMode::all().len(), expected.len());
    for (doc, core) in expected {
        assert_eq!(doc.to_blend(), core, "{doc:?} mapped wrongly");
    }
}

#[test]
fn blend_mode_names_and_svg_keywords() {
    assert_eq!(BlendMode::ColorDodge.name(), "Color Dodge");
    assert_eq!(BlendMode::Normal.name(), "Normal");
    assert_eq!(BlendMode::Normal.as_svg_str(), None);
    assert_eq!(BlendMode::HardLight.as_svg_str(), Some("hard-light"));
    assert_eq!(BlendMode::Luminosity.as_svg_str(), Some("luminosity"));
    let all = BlendMode::all();
    assert_eq!(all[0], BlendMode::Normal);
    assert_eq!(all[15], BlendMode::Luminosity);
}

#[test]
fn text_keywords() {
    assert_eq!(FontStyle::Italic.as_svg_str(), "italic");
    assert_eq!(FontStyle::Oblique.as_svg_str(), "oblique");
    assert_eq!(TextAnchor::Middle.as_svg_str(), "middle");
    assert_eq!(TextAnchor::End.as_svg_str(), "end");
    assert_eq!(default_font_family(), "Inter, sans-serif");
    assert_eq!(default_font_weight(), 400);
}

#[test]
fn stroke_and_colour_mode_names() {
    assert_eq!(StrokeCap::Square.name(), "Square");
    assert_eq!(StrokeJoin::Bevel.name(), "Bevel");
    assert_eq!(ArrowHead::NoHead.name(), "None");
    assert_eq!(ArrowHead::Barbed.name(), "Barbed");
    assert_eq!(ColorMode::Rgb.name(), "RGB");
    assert_eq!(ColorMode::Cmyk.name(), "CMYK");
}

#[test]
fn distinct_modes_map_to_distinct_compositor_modes() {
    let all = BlendMode::all();
    for (i, a) in all.iter().enumerate() {
        for (j, b) in all.iter().enumerate() {
            assert_eq!(a.to_blend() == b.to_blend(), i == j);
        }
    }
}

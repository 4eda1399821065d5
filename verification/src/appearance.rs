//! Appearance vocabulary of document objects: blend modes, font styles,
//! text anchors, stroke caps, joins and arrow heads, and colour modes, with
//! their display and SVG names.
use vstd::prelude::*;
use crate::blend::BlendMode as CoreBlendMode;

verus! {

/// How an object's colours combine with what lies below it.
#[derive(PartialEq, Eq, Structural, Clone, Copy, Debug)]
pub enum BlendMode {
    Normal,
    Multiply,
    Screen,
    Overlay,
    Darken,
    Lighten,
    ColorDodge,
    ColorBurn,
    HardLight,
    SoftLight,
    Difference,
    Exclusion,
    Hue,
    Saturation,
    Color,
    Luminosity,
}

/// Display name of a blend mode.
pub open spec fn blend_mode_name(v: BlendMode) -> Seq<char> {
    match v {
        BlendMode::Normal => "Normal"@,
        BlendMode::Multiply => "Multiply"@,
        BlendMode::Screen => "Screen"@,
        BlendMode::Overlay => "Overlay"@,
        BlendMode::Darken => "Darken"@,
        BlendMode::Lighten => "Lighten"@,
        BlendMode::ColorDodge => "Color Dodge"@,
        BlendMode::ColorBurn => "Color Burn"@,
        BlendMode::HardLight => "Hard Light"@,
        BlendMode::SoftLight => "Soft Light"@,
        BlendMode::Difference => "Difference"@,
        BlendMode::Exclusion => "Exclusion"@,
        BlendMode::Hue => "Hue"@,
        BlendMode::Saturation => "Saturation"@,
        BlendMode::Color => "Color"@,
        BlendMode::Luminosity => "Luminosity"@,
    }
}

/// The CSS `mix-blend-mode` keyword; `None` for Normal.
pub open spec fn blend_mode_svg(v: BlendMode) -> Option<Seq<char>> {
    match v {
        BlendMode::Normal => None,
        BlendMode::Multiply => Some("multiply"@),
        BlendMode::Screen => Some("screen"@),
        BlendMode::Overlay => Some("overlay"@),
        BlendMode::Darken => Some("darken"@),
        BlendMode::Lighten => Some("lighten"@),
        BlendMode::ColorDodge => Some("color-dodge"@),
        BlendMode::ColorBurn => Some("color-burn"@),
        BlendMode::HardLight => Some("hard-light"@),
        BlendMode::SoftLight => Some("soft-light"@),
        BlendMode::Difference => Some("difference"@),
        BlendMode::Exclusion => Some("exclusion"@),
        BlendMode::Hue => Some("hue"@),
        BlendMode::Saturation => Some("saturation"@),
        BlendMode::Color => Some("color"@),
        BlendMode::Luminosity => Some("luminosity"@),
    }
}

/// The shared blend implementation's mode of the same name.
pub open spec fn spec_to_blend(m: BlendMode) -> CoreBlendMode {
    match m {
        BlendMode::Normal => CoreBlendMode::Normal,
        BlendMode::Multiply => CoreBlendMode::Multiply,
        BlendMode::Screen => CoreBlendMode::Screen,
        BlendMode::Overlay => CoreBlendMode::Overlay,
        BlendMode::Darken => CoreBlendMode::Darken,
        BlendMode::Lighten => CoreBlendMode::Lighten,
        BlendMode::ColorDodge => CoreBlendMode::ColorDodge,
        BlendMode::ColorBurn => CoreBlendMode::ColorBurn,
        BlendMode::HardLight => CoreBlendMode::HardLight,
        BlendMode::SoftLight => CoreBlendMode::SoftLight,
        BlendMode::Difference => CoreBlendMode::Difference,
        BlendMode::Exclusion => CoreBlendMode::Exclusion,
        BlendMode::Hue => CoreBlendMode::Hue,
        BlendMode::Saturation => CoreBlendMode::Saturation,
        BlendMode::Color => CoreBlendMode::Color,
        BlendMode::Luminosity => CoreBlendMode::Luminosity,
    }
}

/// Every blend mode, in menu order.
pub open spec fn all_blend_modes() -> Seq<BlendMode> {
    seq![BlendMode::Normal, BlendMode::Multiply, BlendMode::Screen, BlendMode::Overlay, BlendMode::Darken, BlendMode::Lighten, BlendMode::ColorDodge, BlendMode::ColorBurn, BlendMode::HardLight, BlendMode::SoftLight, BlendMode::Difference, BlendMode::Exclusion, BlendMode::Hue, BlendMode::Saturation, BlendMode::Color, BlendMode::Luminosity]
}

/// Distinct document modes map to distinct compositor modes.
pub proof fn law_to_blend_injective(m1: BlendMode, m2: BlendMode)
    ensures
        spec_to_blend(m1) == spec_to_blend(m2) ==> m1 == m2,
{
}

impl BlendMode {

    /// Display name.
    pub fn name(&self) -> (r: &'static str)
        ensures
            r@ == blend_mode_name(*self),
    {
        match self {
            BlendMode::Normal => "Normal",
            BlendMode::Multiply => "Multiply",
            BlendMode::Screen => "Screen",
            BlendMode::Overlay => "Overlay",
            BlendMode::Darken => "Darken",
            BlendMode::Lighten => "Lighten",
            BlendMode::ColorDodge => "Color Dodge",
            BlendMode::ColorBurn => "Color Burn",
            BlendMode::HardLight => "Hard Light",
            BlendMode::SoftLight => "Soft Light",
            BlendMode::Difference => "Difference",
            BlendMode::Exclusion => "Exclusion",
            BlendMode::Hue => "Hue",
            BlendMode::Saturation => "Saturation",
            BlendMode::Color => "Color",
            BlendMode::Luminosity => "Luminosity",
        }
    }


    /// The SVG / CSS keyword, if the mode is not Normal.
    pub fn as_svg_str(&self) -> (r: Option<&'static str>)
        ensures
            r matches Some(t) ==> blend_mode_svg(*self) == Some(t@),
            r is None ==> blend_mode_svg(*self) is None,
    {
        match self {
            BlendMode::Normal => None,
            BlendMode::Multiply => Some("multiply"),
            BlendMode::Screen => Some("screen"),
            BlendMode::Overlay => Some("overlay"),
            BlendMode::Darken => Some("darken"),
            BlendMode::Lighten => Some("lighten"),
            BlendMode::ColorDodge => Some("color-dodge"),
            BlendMode::ColorBurn => Some("color-burn"),
            BlendMode::HardLight => Some("hard-light"),
            BlendMode::SoftLight => Some("soft-light"),
            BlendMode::Difference => Some("difference"),
            BlendMode::Exclusion => Some("exclusion"),
            BlendMode::Hue => Some("hue"),
            BlendMode::Saturation => Some("saturation"),
            BlendMode::Color => Some("color"),
            BlendMode::Luminosity => Some("luminosity"),
        }
    }


    /// The shared blend implementation's mode of the same name; that
    /// implementation also knows modes the document cannot express.
    pub fn to_blend(self) -> (r: CoreBlendMode)
        ensures
            r == spec_to_blend(self),
    {
        match self {
            BlendMode::Normal => CoreBlendMode::Normal,
            BlendMode::Multiply => CoreBlendMode::Multiply,
            BlendMode::Screen => CoreBlendMode::Screen,
            BlendMode::Overlay => CoreBlendMode::Overlay,
            BlendMode::Darken => CoreBlendMode::Darken,
            BlendMode::Lighten => CoreBlendMode::Lighten,
            BlendMode::ColorDodge => CoreBlendMode::ColorDodge,
            BlendMode::ColorBurn => CoreBlendMode::ColorBurn,
            BlendMode::HardLight => CoreBlendMode::HardLight,
            BlendMode::SoftLight => CoreBlendMode::SoftLight,
            BlendMode::Difference => CoreBlendMode::Difference,
            BlendMode::Exclusion => CoreBlendMode::Exclusion,
            BlendMode::Hue => CoreBlendMode::Hue,
            BlendMode::Saturation => CoreBlendMode::Saturation,
            BlendMode::Color => CoreBlendMode::Color,
            BlendMode::Luminosity => CoreBlendMode::Luminosity,
        }
    }

    /// Every blend mode, in menu order.
    pub fn all() -> (r: Vec<BlendMode>)
        ensures
            r@ == all_blend_modes(),
    {
        let r = vec![BlendMode::Normal, BlendMode::Multiply, BlendMode::Screen, BlendMode::Overlay, BlendMode::Darken, BlendMode::Lighten, BlendMode::ColorDodge, BlendMode::ColorBurn, BlendMode::HardLight, BlendMode::SoftLight, BlendMode::Difference, BlendMode::Exclusion, BlendMode::Hue, BlendMode::Saturation, BlendMode::Color, BlendMode::Luminosity];
        assert(r@ =~= all_blend_modes());
        r
    }
}


/// Font slant.
#[derive(PartialEq, Eq, Structural, Clone, Copy, Debug)]
pub enum FontStyle {
    Normal,
    Italic,
    Oblique,
}

/// The SVG `font-style` keyword.
pub open spec fn font_style_svg(v: FontStyle) -> Seq<char> {
    match v {
        FontStyle::Normal => "normal"@,
        FontStyle::Italic => "italic"@,
        FontStyle::Oblique => "oblique"@,
    }
}

impl FontStyle {
    /// The SVG `font-style` keyword.
    pub fn as_svg_str(&self) -> (r: &'static str)
        ensures
            r@ == font_style_svg(*self),
    {
        match self {
            FontStyle::Normal => "normal",
            FontStyle::Italic => "italic",
            FontStyle::Oblique => "oblique",
        }
    }
}


/// Horizontal alignment of text at its anchor point.
#[derive(PartialEq, Eq, Structural, Clone, Copy, Debug)]
pub enum TextAnchor {
    Start,
    Middle,
    End,
}

/// The SVG `text-anchor` keyword.
pub open spec fn text_anchor_svg(v: TextAnchor) -> Seq<char> {
    match v {
        TextAnchor::Start => "start"@,
        TextAnchor::Middle => "middle"@,
        TextAnchor::End => "end"@,
    }
}

impl TextAnchor {
    /// The SVG `text-anchor` keyword.
    pub fn as_svg_str(&self) -> (r: &'static str)
        ensures
            r@ == text_anchor_svg(*self),
    {
        match self {
            TextAnchor::Start => "start",
            TextAnchor::Middle => "middle",
            TextAnchor::End => "end",
        }
    }
}


/// The font family of new text.
pub fn default_font_family() -> (r: String)
    ensures
        r@ == "Inter, sans-serif"@,
{
    "Inter, sans-serif".to_string()
}

/// The font weight of new text.
pub fn default_font_weight() -> (r: u16)
    ensures
        r == 400,
{
    400
}


/// Colour model of a document.
#[derive(PartialEq, Eq, Structural, Clone, Copy, Debug)]
pub enum ColorMode {
    Rgb,
    Cmyk,
}

/// How a colour mode is written out.
pub open spec fn color_mode_name(v: ColorMode) -> Seq<char> {
    match v {
        ColorMode::Rgb => "RGB"@,
        ColorMode::Cmyk => "CMYK"@,
    }
}

impl ColorMode {
    /// How the colour mode is written out (`RGB`, `CMYK`).
    pub fn name(&self) -> (r: &'static str)
        ensures
            r@ == color_mode_name(*self),
    {
        match self {
            ColorMode::Rgb => "RGB",
            ColorMode::Cmyk => "CMYK",
        }
    }
}


/// Shape at the open ends of a stroke.
#[derive(PartialEq, Eq, Structural, Clone, Copy, Debug)]
pub enum StrokeCap {
    Butt,
    Round,
    Square,
}

/// Display name of a stroke cap.
pub open spec fn stroke_cap_name(v: StrokeCap) -> Seq<char> {
    match v {
        StrokeCap::Butt => "Butt"@,
        StrokeCap::Round => "Round"@,
        StrokeCap::Square => "Square"@,
    }
}

impl StrokeCap {
    /// Display name.
    pub fn name(&self) -> (r: &'static str)
        ensures
            r@ == stroke_cap_name(*self),
    {
        match self {
            StrokeCap::Butt => "Butt",
            StrokeCap::Round => "Round",
            StrokeCap::Square => "Square",
        }
    }
}


/// Shape where two stroke segments meet.
#[derive(PartialEq, Eq, Structural, Clone, Copy, Debug)]
pub enum StrokeJoin {
    Miter,
    Round,
    Bevel,
}

/// Display name of a stroke join.
pub open spec fn stroke_join_name(v: StrokeJoin) -> Seq<char> {
    match v {
        StrokeJoin::Miter => "Miter"@,
        StrokeJoin::Round => "Round"@,
        StrokeJoin::Bevel => "Bevel"@,
    }
}

impl StrokeJoin {
    /// Display name.
    pub fn name(&self) -> (r: &'static str)
        ensures
            r@ == stroke_join_name(*self),
    {
        match self {
            StrokeJoin::Miter => "Miter",
            StrokeJoin::Round => "Round",
            StrokeJoin::Bevel => "Bevel",
        }
    }
}


/// Marker drawn at a stroke's end.
#[derive(PartialEq, Eq, Structural, Clone, Copy, Debug)]
pub enum ArrowHead {
    NoHead,
    Triangle,
    Arrow,
    Circle,
    Diamond,
    Square,
    Barbed,
}

/// Display name of an arrow head.
pub open spec fn arrow_head_name(v: ArrowHead) -> Seq<char> {
    match v {
        ArrowHead::NoHead => "None"@,
        ArrowHead::Triangle => "Triangle"@,
        ArrowHead::Arrow => "Arrow"@,
        ArrowHead::Circle => "Circle"@,
        ArrowHead::Diamond => "Diamond"@,
        ArrowHead::Square => "Square"@,
        ArrowHead::Barbed => "Barbed"@,
    }
}

impl ArrowHead {
    /// Display name.
    pub fn name(&self) -> (r: &'static str)
        ensures
            r@ == arrow_head_name(*self),
    {
        match self {
            ArrowHead::NoHead => "None",
            ArrowHead::Triangle => "Triangle",
            ArrowHead::Arrow => "Arrow",
            ArrowHead::Circle => "Circle",
            ArrowHead::Diamond => "Diamond",
            ArrowHead::Square => "Square",
            ArrowHead::Barbed => "Barbed",
        }
    }
}


} // verus!

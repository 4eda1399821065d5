//! The options of the drawing tools whose geometry is floating point:
//! fill rules, guide and grid kinds, projections, presets. The tools
//! themselves work on coordinates outside the library.
use vstd::prelude::*;

verus! {

/// How the inside of a self-overlapping outline is decided.
#[derive(PartialEq, Eq, Structural, Clone, Copy, Debug)]
pub enum FillRule {
    NonZero,
    EvenOdd,
}

impl Default for FillRule {
    fn default() -> (r: Self)
        ensures
            r == FillRule::EvenOdd,
    {
        FillRule::EvenOdd
    }
}

/// The direction of a canvas guide.
#[derive(PartialEq, Eq, Structural, Clone, Copy, Debug)]
pub enum GuideOrientation {
    Horizontal,
    Vertical,
}

/// The kind of an artboard layout grid.
#[derive(PartialEq, Eq, Structural, Clone, Copy, Debug)]
pub enum LayoutGridKind {
    Columns,
    Rows,
    Grid,
}

impl Default for LayoutGridKind {
    fn default() -> (r: Self)
        ensures
            r == LayoutGridKind::Columns,
    {
        LayoutGridKind::Columns
    }
}

/// How an image fill covers its shape.
#[derive(PartialEq, Eq, Structural, Clone, Copy, Debug)]
pub enum ImageTileMode {
    Cover,
    Contain,
    Fit,
    Tile,
}

impl Default for ImageTileMode {
    fn default() -> (r: Self)
        ensures
            r == ImageTileMode::Cover,
    {
        ImageTileMode::Cover
    }
}

/// The direction of the polar coordinate transform.
#[derive(PartialEq, Eq, Structural, Clone, Copy, Debug)]
pub enum PolarMode {
    RectToPolar,
    PolarToRect,
}

/// The waveform of a generated audio curve.
#[derive(PartialEq, Eq, Structural, Clone, Copy, Debug)]
pub enum WaveformType {
    Sine,
    Sawtooth,
    Square,
    Triangle,
    Harmonics,
    FM,
}

/// The stacking direction of an auto-layout group.
#[derive(PartialEq, Eq, Structural, Clone, Copy, Debug)]
pub enum AutoLayoutDirection {
    Horizontal,
    Vertical,
}

impl Default for AutoLayoutDirection {
    fn default() -> (r: Self)
        ensures
            r == AutoLayoutDirection::Horizontal,
    {
        AutoLayoutDirection::Horizontal
    }
}

/// An axonometric projection.
#[derive(PartialEq, Eq, Structural, Clone, Copy, Debug)]
pub enum AxonometricMode {
    Isometric,
    Dimetric,
    Trimetric,
    Cabinet,
    Cavalier,
}

/// Which side of a stroke a width profile widens.
#[derive(PartialEq, Eq, Structural, Clone, Copy, Debug)]
pub enum WidthSide {
    Left,
    Right,
    Both,
}

impl Default for WidthSide {
    fn default() -> (r: Self)
        ensures
            r == WidthSide::Both,
    {
        WidthSide::Both
    }
}

/// Which side of its path text runs on.
#[derive(PartialEq, Eq, Structural, Clone, Copy, Debug)]
pub enum TextPathSide {
    Top,
    Bottom,
}

impl Default for TextPathSide {
    fn default() -> (r: Self)
        ensures
            r == TextPathSide::Top,
    {
        TextPathSide::Top
    }
}

/// A flow-field streamline preset.
#[derive(PartialEq, Eq, Structural, Clone, Copy, Debug)]
pub enum FlowFieldPreset {
    Vortex,
    MagneticDipole,
    CyberChaos,
}

/// A gradient-mesh colour preset.
#[derive(PartialEq, Eq, Structural, Clone, Copy, Debug)]
pub enum GradientMeshPreset {
    Sunset,
    Cyberpunk,
    Aurora,
    Gold,
}

/// The dot layout of a halftone.
#[derive(PartialEq, Eq, Structural, Clone, Copy, Debug)]
pub enum HalftonePattern {
    CircularGrid,
    HexagonalGrid,
    ScanlineMatrix,
}

/// The plane an isometric transform projects onto.
#[derive(PartialEq, Eq, Structural, Clone, Copy, Debug)]
pub enum IsometricPlane {
    Top,
    Left,
    Right,
}

/// A lattice-warp preset.
#[derive(PartialEq, Eq, Structural, Clone, Copy, Debug)]
pub enum WarpPreset {
    Bulge,
    Pinch,
    TwistS,
    WaveWarp,
}

/// A procedural path deformation.
#[derive(PartialEq, Eq, Structural, Clone, Copy, Debug)]
pub enum DeformType {
    SineWave,
    TurbulentNoise,
    JitterGlitch,
}

/// The tile layout of a pattern fill.
#[derive(PartialEq, Eq, Structural, Clone, Copy, Debug)]
pub enum PatternType {
    Grid,
    Hex,
    Brick,
    Dots,
}

impl Default for PatternType {
    fn default() -> (r: Self)
        ensures
            r == PatternType::Grid,
    {
        PatternType::Grid
    }
}

} // verus!

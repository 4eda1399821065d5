//! The editing tools and the handles of the selection box.
use vstd::prelude::*;

verus! {

/// An editing tool of the canvas.
#[derive(PartialEq, Eq, Structural, Clone, Copy, Debug)]
pub enum Tool {
    Select,
    Node,
    Pen,
    Pencil,
    Rectangle,
    Ellipse,
    Star,
    Polygon,
    Line,
    Text,
    Eyedropper,
    Hand,
    Brush,
    Eraser,
    ShapeBuilder,
    Zoom,
    PixelPencil,
    PixelEraser,
    PixelBucket,
}

/// Display name of a tool.
pub open spec fn tool_name(v: Tool) -> Seq<char> {
    match v {
        Tool::Select => "Selection"@,
        Tool::Node => "Direct Select"@,
        Tool::Pen => "Pen"@,
        Tool::Pencil => "Pencil (Smooth)"@,
        Tool::Rectangle => "Rectangle"@,
        Tool::Ellipse => "Ellipse"@,
        Tool::Star => "Star"@,
        Tool::Polygon => "Polygon"@,
        Tool::Line => "Line Segment"@,
        Tool::Text => "Type"@,
        Tool::Eyedropper => "Eyedropper"@,
        Tool::Hand => "Hand"@,
        Tool::Brush => "Brush"@,
        Tool::Eraser => "Eraser"@,
        Tool::ShapeBuilder => "Shape Builder"@,
        Tool::Zoom => "Zoom"@,
        Tool::PixelPencil => "Pixel Pencil"@,
        Tool::PixelEraser => "Pixel Eraser"@,
        Tool::PixelBucket => "Pixel Bucket"@,
    }
}

/// Toolbar glyph of a tool.
pub open spec fn tool_icon(v: Tool) -> Seq<char> {
    match v {
        Tool::Select => "↖"@,
        Tool::Node => "⇱"@,
        Tool::Pen => "✒"@,
        Tool::Pencil => "✎"@,
        Tool::Rectangle => "▭"@,
        Tool::Ellipse => "○"@,
        Tool::Star => "★"@,
        Tool::Polygon => "⬡"@,
        Tool::Line => "╱"@,
        Tool::Text => "T"@,
        Tool::Eyedropper => "⚗"@,
        Tool::Hand => "✋"@,
        Tool::Brush => "∂"@,
        Tool::Eraser => "⌫"@,
        Tool::ShapeBuilder => "⊕"@,
        Tool::Zoom => "⊕"@,
        Tool::PixelPencil => "▦"@,
        Tool::PixelEraser => "▧"@,
        Tool::PixelBucket => "🪣"@,
    }
}

/// Keyboard shortcut of a tool.
pub open spec fn tool_shortcut(v: Tool) -> Seq<char> {
    match v {
        Tool::Select => "V"@,
        Tool::Node => "A"@,
        Tool::Pen => "P"@,
        Tool::Pencil => "N"@,
        Tool::Rectangle => "U"@,
        Tool::Ellipse => "O"@,
        Tool::Star => "S"@,
        Tool::Polygon => "G"@,
        Tool::Line => "L"@,
        Tool::Text => "T"@,
        Tool::Eyedropper => "I"@,
        Tool::Hand => "H"@,
        Tool::Brush => "B"@,
        Tool::Eraser => "E"@,
        Tool::ShapeBuilder => "M"@,
        Tool::Zoom => "Z"@,
        Tool::PixelPencil => "X"@,
        Tool::PixelEraser => "C"@,
        Tool::PixelBucket => "K"@,
    }
}

impl Tool {
    /// Display name.
    pub fn name(&self) -> (r: &'static str)
        ensures
            r@ == tool_name(*self),
    {
        match self {
            Tool::Select => "Selection",
            Tool::Node => "Direct Select",
            Tool::Pen => "Pen",
            Tool::Pencil => "Pencil (Smooth)",
            Tool::Rectangle => "Rectangle",
            Tool::Ellipse => "Ellipse",
            Tool::Star => "Star",
            Tool::Polygon => "Polygon",
            Tool::Line => "Line Segment",
            Tool::Text => "Type",
            Tool::Eyedropper => "Eyedropper",
            Tool::Hand => "Hand",
            Tool::Brush => "Brush",
            Tool::Eraser => "Eraser",
            Tool::ShapeBuilder => "Shape Builder",
            Tool::Zoom => "Zoom",
            Tool::PixelPencil => "Pixel Pencil",
            Tool::PixelEraser => "Pixel Eraser",
            Tool::PixelBucket => "Pixel Bucket",
        }
    }

    /// Toolbar glyph.
    pub fn icon(&self) -> (r: &'static str)
        ensures
            r@ == tool_icon(*self),
    {
        match self {
            Tool::Select => "↖",
            Tool::Node => "⇱",
            Tool::Pen => "✒",
            Tool::Pencil => "✎",
            Tool::Rectangle => "▭",
            Tool::Ellipse => "○",
            Tool::Star => "★",
            Tool::Polygon => "⬡",
            Tool::Line => "╱",
            Tool::Text => "T",
            Tool::Eyedropper => "⚗",
            Tool::Hand => "✋",
            Tool::Brush => "∂",
            Tool::Eraser => "⌫",
            Tool::ShapeBuilder => "⊕",
            Tool::Zoom => "⊕",
            Tool::PixelPencil => "▦",
            Tool::PixelEraser => "▧",
            Tool::PixelBucket => "🪣",
        }
    }

    /// Keyboard shortcut.
    pub fn shortcut(&self) -> (r: &'static str)
        ensures
            r@ == tool_shortcut(*self),
    {
        match self {
            Tool::Select => "V",
            Tool::Node => "A",
            Tool::Pen => "P",
            Tool::Pencil => "N",
            Tool::Rectangle => "U",
            Tool::Ellipse => "O",
            Tool::Star => "S",
            Tool::Polygon => "G",
            Tool::Line => "L",
            Tool::Text => "T",
            Tool::Eyedropper => "I",
            Tool::Hand => "H",
            Tool::Brush => "B",
            Tool::Eraser => "E",
            Tool::ShapeBuilder => "M",
            Tool::Zoom => "Z",
            Tool::PixelPencil => "X",
            Tool::PixelEraser => "C",
            Tool::PixelBucket => "K",
        }
    }
}


/// A handle of the selection bounding box.
#[derive(PartialEq, Eq, Structural, Clone, Copy, Debug)]
pub enum HandleCorner {
    TopLeft,
    TopRight,
    BottomRight,
    BottomLeft,
    Top,
    Bottom,
    Left,
    Right,
    RotateTopRight,
}

} // verus!

use amata::kinds::{AutoLayoutDirection, FillRule, ImageTileMode, LayoutGridKind, PatternType, TextPathSide, WidthSide};

#[test]
fn option_defaults() {
    assert_eq!(FillRule::default(), FillRule::EvenOdd);
    assert_eq!(LayoutGridKind::default(), LayoutGridKind::Columns);
    assert_eq!(ImageTileMode::default(), ImageTileMode::Cover);
    assert_eq!(AutoLayoutDirection::default(), AutoLayoutDirection::Horizontal);
    assert_eq!(WidthSide::default(), WidthSide::Both);
    assert_eq!(TextPathSide::default(), TextPathSide::Top);
    assert_eq!(PatternType::default(), PatternType::Grid);
}

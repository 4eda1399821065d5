use amata::unit::LengthUnit;

#[test]
fn parse_is_total_and_falls_back_to_px() {
    assert_eq!(LengthUnit::parse("ミリメートル"), LengthUnit::Mm);
    assert_eq!(LengthUnit::parse("ポイント"), LengthUnit::Pt);
    assert_eq!(LengthUnit::parse("インチ"), LengthUnit::In);
    assert_eq!(LengthUnit::parse("ピクセル"), LengthUnit::Px);
    assert_eq!(LengthUnit::parse(""), LengthUnit::Px);
    assert_eq!(LengthUnit::parse("観光"), LengthUnit::Px);
}

#[test]
fn parse_sees_every_label() {
    for unit in LengthUnit::ALL {
        assert_eq!(LengthUnit::parse(unit.label()), unit);
    }
}

#[test]
fn suffixes_and_labels() {
    assert_eq!(LengthUnit::Px.suffix(), "px");
    assert_eq!(LengthUnit::Mm.suffix(), "mm");
    assert_eq!(LengthUnit::Pt.suffix(), "pt");
    assert_eq!(LengthUnit::In.suffix(), "in");
    assert_eq!(LengthUnit::Mm.suffix_label(), " mm");
    assert_eq!(LengthUnit::In.suffix_label(), " in");
    assert_eq!(LengthUnit::Px.label(), "ピクセル");
    assert_eq!(LengthUnit::default(), LengthUnit::Px);
}

#[test]
fn field_decimals_by_unit() {
    assert_eq!(LengthUnit::In.field_decimals(), 2);
    assert_eq!(LengthUnit::Px.field_decimals(), 1);
    assert_eq!(LengthUnit::Mm.field_decimals(), 1);
    assert_eq!(LengthUnit::Pt.field_decimals(), 1);
}

#[test]
fn parse_near_misses_fall_back() {
    assert_eq!(LengthUnit::parse("ミリメートル "), LengthUnit::Px);
    assert_eq!(LengthUnit::parse("mm"), LengthUnit::Px);
    assert_eq!(LengthUnit::parse("インチインチ"), LengthUnit::Px);
}

use amata::effects::{AppearanceStack, VectorEffect};

type Effect = VectorEffect<&'static str, &'static str, f64, &'static str>;

#[test]
fn upsert_replaces_the_same_kind() {
    let mut s: AppearanceStack<&str, &str, f64, &str> = AppearanceStack::new();
    assert!(s.is_empty());
    s.upsert(VectorEffect::Blur(5.0));
    s.upsert(VectorEffect::DropShadow("shadow"));
    s.upsert(VectorEffect::Blur(9.0));
    assert_eq!(s.effects.len(), 2);
    assert_eq!(s.has_blur(), Some(&9.0));
    assert_eq!(s.has_shadow(), Some(&"shadow"));
    assert_eq!(s.has_glow(), None);
    assert_eq!(s.has_color_adjust(), None);
}

#[test]
fn push_stacks_and_remove_kind_drops_all_of_a_kind() {
    let mut s: AppearanceStack<&str, &str, f64, &str> = AppearanceStack::new();
    s.push(VectorEffect::Glow("g1"));
    s.push(VectorEffect::Blur(1.0));
    s.push(VectorEffect::Glow("g2"));
    s.push(VectorEffect::ColorAdjust("c"));
    assert_eq!(s.has_glow(), Some(&"g1"), "the first of its kind");
    let probe: Effect = VectorEffect::Glow("");
    s.remove_kind(&probe);
    assert_eq!(s.effects.len(), 2);
    assert!(matches!(s.effects[0], VectorEffect::Blur(_)));
    assert!(matches!(s.effects[1], VectorEffect::ColorAdjust(_)));
    s.clear();
    assert!(s.is_empty());
}

use amata::appearance::FontStyle;
use amata::fonts::{face_candidates, FontCatalog, StyleProbe};

fn catalog(names: &[&str]) -> FontCatalog {
    FontCatalog::from_names(names.iter().map(|s| s.to_string()).collect())
}

#[test]
fn catalog_dedups_and_sorts_case_insensitively() {
    let c = catalog(&["Noto Sans", "arial", "", "Noto Sans", "Zapfino", "Arial"]);
    assert_eq!(c.list_families(), &["arial".to_string(), "Arial".to_string(), "Noto Sans".to_string(), "Zapfino".to_string()][..]);
}

#[test]
fn family_availability_trims_quotes_and_ignores_ascii_case() {
    let c = catalog(&["Inter", "Helvetica Neue"]);
    assert!(c.is_family_available("inter"));
    assert!(c.is_family_available("  'Helvetica Neue' "));
    assert!(c.is_family_available("\"INTER\""));
    assert!(!c.is_family_available("Inter Display"));
    assert!(!c.is_family_available(""));
}

#[test]
fn any_family_accepts_generic_names() {
    let c = catalog(&["Inter"]);
    assert!(c.is_any_family_available("Missing, Inter"));
    assert!(c.is_any_family_available("Missing, Sans-Serif"));
    assert!(c.is_any_family_available("-apple-system"));
    assert!(!c.is_any_family_available("Missing, Other"));
    assert!(!c.is_any_family_available(""));
}

#[test]
fn resolve_takes_the_first_matching_entry() {
    let c = catalog(&["Inter", "Roboto"]);
    assert_eq!(c.resolve_family("CustomFont, roboto, Inter"), Some("Roboto".to_string()));
    assert_eq!(c.resolve_family(" 'INTER' "), Some("Inter".to_string()));
    assert_eq!(c.resolve_family("sans-serif"), None);
}

#[test]
fn face_query_candidates_skip_generic_and_empty() {
    assert_eq!(face_candidates("Custom, , 'Inter', sans-serif, System-UI, -apple-system"), vec!["Custom", "Inter", "-apple-system"]);
    assert!(face_candidates("").is_empty());
}

#[test]
fn synthetic_style_probe() {
    let c = catalog(&["Inter"]);
    assert!(matches!(c.synthetic_style_probe("Inter", FontStyle::Normal), StyleProbe::Upright));
    match c.synthetic_style_probe("Missing, inter", FontStyle::Italic) {
        StyleProbe::Family(n) => assert_eq!(n, "inter"),
        _ => panic!("expected a family probe"),
    }
    assert!(matches!(c.synthetic_style_probe("Missing, serif", FontStyle::Oblique), StyleProbe::SansFallback));
    assert!(matches!(c.synthetic_style_probe("Missing", FontStyle::Italic), StyleProbe::Synthesize));
}

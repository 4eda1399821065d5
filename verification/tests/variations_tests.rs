use amata::variations::{clear_variation, parse_variation_settings_css, set_variation, variation, variation_settings_css, VariationSetting};

fn texts(vs: &[VariationSetting<String>]) -> Vec<(String, String)> {
    vs.iter().map(|v| (v.axis.clone(), v.value.clone())).collect()
}

#[test]
fn css_parts_become_settings_in_order() {
    let vs = parse_variation_settings_css("\"wght\" 700, 'wdth' 100");
    assert_eq!(texts(&vs), vec![("wght".to_string(), "700".to_string()), ("wdth".to_string(), "100".to_string())]);
}

#[test]
fn malformed_parts_are_skipped() {
    let vs = parse_variation_settings_css("\"wght\", \"toolong\" 3, slnt -10, , \"ital\" 1 extra");
    assert_eq!(texts(&vs), vec![("slnt".to_string(), "-10".to_string()), ("ital".to_string(), "1".to_string())]);
    assert!(parse_variation_settings_css("").is_empty());
}

#[test]
fn tag_length_counts_bytes() {
    // "wgé" is three characters but four bytes.
    let vs = parse_variation_settings_css("\"wgé\" 1, \"é\" 2");
    assert_eq!(texts(&vs), vec![("wgé".to_string(), "1".to_string())]);
}

#[test]
fn css_text_round_trips() {
    let vs = vec![VariationSetting::new("wght", "650".to_string()), VariationSetting::new("opsz", "12.5".to_string())];
    let css = variation_settings_css(&vs);
    assert_eq!(css, "\"wght\" 650, \"opsz\" 12.5");
    assert_eq!(texts(&parse_variation_settings_css(&css)), texts(&vs));
    assert_eq!(variation_settings_css(&Vec::new()), "");
}

#[test]
fn lookup_and_update_ignore_ascii_case() {
    let mut vs: Vec<VariationSetting<u32>> = Vec::new();
    set_variation(&mut vs, "wght", 400);
    set_variation(&mut vs, "WGHT", 700);
    assert_eq!(vs.len(), 1);
    assert_eq!(vs[0].axis, "wght");
    assert_eq!(variation(&vs, "Wght"), Some(&700));
    set_variation(&mut vs, "wdth", 90);
    assert_eq!(variation(&vs, "wdth"), Some(&90));
    assert_eq!(variation(&vs, "slnt"), None);
    clear_variation(&mut vs, "WGHT");
    assert_eq!(vs.len(), 1);
    assert_eq!(vs[0].axis, "wdth");
}

use amata::print::{preflight_report, PreflightFacts, PreflightLevel};

fn facts() -> PreflightFacts {
    PreflightFacts {
        cmyk: true,
        rgb_count: 0,
        ink_over_limit: false,
        worst_ink_percent: "280".to_string(),
        worst_ink_name: "塗り".to_string(),
        overprint_white: 0,
        low_dpi: 0,
        lowest_dpi_failing: false,
        lowest_dpi: "0".to_string(),
        bleed_short: false,
        bleed_mm: "3.0".to_string(),
        spot_names: vec![],
    }
}

#[test]
fn clean_document_passes_every_check() {
    let r = preflight_report(&facts());
    assert_eq!(r.len(), 5);
    assert!(r.iter().all(|i| i.level == PreflightLevel::Pass));
    assert_eq!(r[0].check, "カラーモード");
    assert_eq!(r[0].detail, "全プロセス色はCMYKです");
    assert_eq!(r[1].detail, "最大280%");
    assert_eq!(r[2].detail, "配置画像は十分な解像度です");
    assert_eq!(r[3].detail, "3.0mm");
    assert_eq!(r[4].detail, "特色は使われていません");
}

#[test]
fn problems_are_reported_with_their_counts() {
    let mut f = facts();
    f.rgb_count = 12;
    f.ink_over_limit = true;
    f.worst_ink_percent = "350".to_string();
    f.overprint_white = 2;
    f.low_dpi = 3;
    f.lowest_dpi_failing = true;
    f.lowest_dpi = "96".to_string();
    f.bleed_short = true;
    f.bleed_mm = "1.0".to_string();
    f.spot_names = vec!["DIC 156".to_string(), "PANTONE 485 C".to_string()];
    let r = preflight_report(&f);
    assert_eq!(r.len(), 6);
    assert_eq!((r[0].level, r[0].check.as_str()), (PreflightLevel::Warn, "RGBオブジェクト"));
    assert_eq!(r[0].detail, "12件がRGBのまま — 書き出し時にCMYK変換されます");
    assert_eq!(r[1].detail, "最大350%（塗り）— 320%以下推奨");
    assert_eq!((r[2].level, r[2].detail.as_str()), (PreflightLevel::Fail, "2件 — 白が透けて消えます"));
    assert_eq!((r[3].level, r[3].detail.as_str()), (PreflightLevel::Fail, "3件が300dpi未満（最低96dpi）"));
    assert_eq!((r[4].level, r[4].detail.as_str()), (PreflightLevel::Warn, "1.0mm — 3mm推奨"));
    assert_eq!(r[5].detail, "2版: DIC 156, PANTONE 485 C");
}

#[test]
fn rgb_document_passes_the_colour_mode() {
    let mut f = facts();
    f.cmyk = false;
    f.rgb_count = 4;
    let r = preflight_report(&f);
    assert_eq!((r[0].level, r[0].detail.as_str()), (PreflightLevel::Pass, "RGBドキュメント（印刷時はCMYK変換）"));
}

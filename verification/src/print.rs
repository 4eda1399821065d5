//! Print preflight findings.
use vstd::prelude::*;
use crate::text::{decimal, push_decimal, push_str};

verus! {

/// Severity of a preflight finding.
#[derive(PartialEq, Eq, Structural, Clone, Copy, Debug)]
pub enum PreflightLevel {
    Pass,
    Warn,
    Fail,
}

/// One preflight finding: its severity, the check that produced it and a
/// human-readable detail.
#[derive(Clone, Debug)]
pub struct PreflightIssue {
    pub level: PreflightLevel,
    pub check: String,
    pub detail: String,
}

impl PreflightIssue {

    /// A finding of level `Pass`.
    pub fn pass(check: &str, detail: &str) -> (r: Self)
        ensures
            r.level == PreflightLevel::Pass,
            r.check@ == check@,
            r.detail@ == detail@,
    {
        PreflightIssue { level: PreflightLevel::Pass, check: check.to_owned(), detail: detail.to_owned() }
    }

    /// A finding of level `Warn`.
    pub fn warn(check: &str, detail: &str) -> (r: Self)
        ensures
            r.level == PreflightLevel::Warn,
            r.check@ == check@,
            r.detail@ == detail@,
    {
        PreflightIssue { level: PreflightLevel::Warn, check: check.to_owned(), detail: detail.to_owned() }
    }

    /// A finding of level `Fail`.
    pub fn fail(check: &str, detail: &str) -> (r: Self)
        ensures
            r.level == PreflightLevel::Fail,
            r.check@ == check@,
            r.detail@ == detail@,
    {
        PreflightIssue { level: PreflightLevel::Fail, check: check.to_owned(), detail: detail.to_owned() }
    }

}


/// What the preflight found in a document: counts, and the outcomes of
/// the measurements made in floating point (given as decisions and as
/// their rendered numbers).
pub struct PreflightFacts {
    /// The document is in CMYK mode.
    pub cmyk: bool,
    /// Process colours left in RGB.
    pub rgb_count: usize,
    /// The highest total ink exceeds the limit.
    pub ink_over_limit: bool,
    /// The highest total ink in percent, rendered.
    pub worst_ink_percent: String,
    /// What carries the highest total ink.
    pub worst_ink_name: String,
    /// White areas set to overprint.
    pub overprint_white: usize,
    /// Placed images under the print resolution.
    pub low_dpi: usize,
    /// The lowest image resolution is under the failing limit.
    pub lowest_dpi_failing: bool,
    /// The lowest image resolution, rendered.
    pub lowest_dpi: String,
    /// The bleed is shorter than recommended.
    pub bleed_short: bool,
    /// The bleed in millimetres, rendered.
    pub bleed_mm: String,
    /// The spot colours in use, in order.
    pub spot_names: Vec<String>,
}

/// A finding as level, check and detail text.
pub open spec fn issue_view(i: PreflightIssue) -> (PreflightLevel, Seq<char>, Seq<char>) {
    (i.level, i.check@, i.detail@)
}

/// Names joined with `", "`.
pub open spec fn joined(names: Seq<Seq<char>>) -> Seq<char>
    decreases names.len(),
{
    if names.len() == 0 {
        Seq::empty()
    } else if names.len() == 1 {
        names[0]
    } else {
        joined(names.drop_last()) + ", "@ + names.last()
    }
}

/// The findings of a preflight, in order: colour mode, total ink, white
/// overprint (only when found), image resolution, bleed and spot colours.
pub open spec fn preflight_findings(f: PreflightFacts) -> Seq<(PreflightLevel, Seq<char>, Seq<char>)> {
    let color = if f.cmyk && f.rgb_count > 0 {
        (PreflightLevel::Warn, "RGBオブジェクト"@, decimal(f.rgb_count as nat) + "件がRGBのまま — 書き出し時にCMYK変換されます"@)
    } else {
        (PreflightLevel::Pass, "カラーモード"@, if f.cmyk { "全プロセス色はCMYKです"@ } else { "RGBドキュメント（印刷時はCMYK変換）"@ })
    };
    let ink = if f.ink_over_limit {
        (PreflightLevel::Warn, "インキ総量"@, "最大"@ + f.worst_ink_percent@ + "%（"@ + f.worst_ink_name@ + "）— 320%以下推奨"@)
    } else {
        (PreflightLevel::Pass, "インキ総量"@, "最大"@ + f.worst_ink_percent@ + "%"@)
    };
    let white = if f.overprint_white > 0 {
        seq![(PreflightLevel::Fail, "白のオーバープリント"@, decimal(f.overprint_white as nat) + "件 — 白が透けて消えます"@)]
    } else {
        Seq::empty()
    };
    let dpi = if f.low_dpi > 0 {
        (if f.lowest_dpi_failing { PreflightLevel::Fail } else { PreflightLevel::Warn }, "画像解像度"@,
            decimal(f.low_dpi as nat) + "件が300dpi未満（最低"@ + f.lowest_dpi@ + "dpi）"@)
    } else {
        (PreflightLevel::Pass, "画像解像度"@, "配置画像は十分な解像度です"@)
    };
    let bleed = if f.bleed_short {
        (PreflightLevel::Warn, "塗り足し"@, f.bleed_mm@ + "mm — 3mm推奨"@)
    } else {
        (PreflightLevel::Pass, "塗り足し"@, f.bleed_mm@ + "mm"@)
    };
    let names = f.spot_names@.map_values(|n: String| n@);
    let spots = if names.len() == 0 {
        (PreflightLevel::Pass, "特色"@, "特色は使われていません"@)
    } else {
        (PreflightLevel::Pass, "特色"@, decimal(names.len()) + "版: "@ + joined(names))
    };
    seq![color, ink] + white + seq![dpi, bleed, spots]
}

/// What every preflight report says, whatever was found:
/// - one finding per check, in the order colour, ink, white overprint, image
///   resolution, bleed, spot colours, where the white-overprint finding stands
///   only when some white is set to overprint;
/// - the colour finding warns exactly when a CMYK document holds RGB colours;
/// - the ink finding warns exactly when the highest total ink exceeds the
///   limit, and passes exactly when it does not;
/// - the resolution finding passes when every image is sharp enough, fails when
///   the lowest resolution is under the failing limit and warns otherwise;
/// - the bleed finding warns exactly when the bleed is short;
/// - the spot-colour finding always passes;
/// - some finding fails exactly when white is set to overprint or an image is
///   under the failing resolution.
pub proof fn law_preflight_levels(f: PreflightFacts)
    ensures
        ({
            let r = preflight_findings(f);
            let k: int = if f.overprint_white > 0 { 1 } else { 0 };
            &&& r.len() == 5 + k
            &&& r[0].0 == (if f.cmyk && f.rgb_count > 0 { PreflightLevel::Warn } else { PreflightLevel::Pass })
            &&& r[1].1 == "インキ総量"@
            &&& (r[1].0 == PreflightLevel::Warn <==> f.ink_over_limit)
            &&& (r[1].0 == PreflightLevel::Pass <==> !f.ink_over_limit)
            &&& (f.overprint_white > 0 ==> r[2].0 == PreflightLevel::Fail && r[2].1 == "白のオーバープリント"@)
            &&& r[2 + k].1 == "画像解像度"@
            &&& r[2 + k].0 == (if f.low_dpi == 0 { PreflightLevel::Pass } else if f.lowest_dpi_failing {
                PreflightLevel::Fail } else { PreflightLevel::Warn })
            &&& r[3 + k].1 == "塗り足し"@
            &&& (r[3 + k].0 == PreflightLevel::Warn <==> f.bleed_short)
            &&& r[3 + k].0 != PreflightLevel::Fail
            &&& r[4 + k].1 == "特色"@
            &&& r[4 + k].0 == PreflightLevel::Pass
            &&& ((exists|i: int| 0 <= i < r.len() && #[trigger] r[i].0 == PreflightLevel::Fail)
                <==> (f.overprint_white > 0 || (f.low_dpi > 0 && f.lowest_dpi_failing)))
        }),
{
    let r = preflight_findings(f);
    let k: int = if f.overprint_white > 0 { 1 } else { 0 };
    if f.overprint_white > 0 {
        assert(r[2].0 == PreflightLevel::Fail);
    }
    if f.low_dpi > 0 && f.lowest_dpi_failing {
        assert(r[2 + k].0 == PreflightLevel::Fail);
    }
    assert forall|i: int| 0 <= i < r.len() && #[trigger] r[i].0 == PreflightLevel::Fail implies (f.overprint_white
        > 0 || (f.low_dpi > 0 && f.lowest_dpi_failing)) by {
        if f.overprint_white > 0 {
        } else {
            assert(i == 2 + k);
        }
    }
}

fn text(a: &str) -> (s: String)
    ensures
        s@ == a@,
{
    let mut s = String::new();
    push_str(&mut s, a);
    assert(s@ =~= a@);
    s
}

fn issue(level: PreflightLevel, check: &str, detail: String) -> (i: PreflightIssue)
    ensures
        issue_view(i) == (level, check@, detail@),
{
    PreflightIssue { level, check: text(check), detail }
}

fn join_names(names: &Vec<String>) -> (r: String)
    ensures
        r@ == joined(names@.map_values(|n: String| n@)),
{
    let ghost all = names@.map_values(|n: String| n@);
    let mut r = String::new();
    let n = names.len();
    let mut i: usize = 0;
    assert(all.take(0) =~= Seq::<Seq<char>>::empty());
    while i < n
        invariant
            n == names@.len(),
            all == names@.map_values(|n: String| n@),
            i <= n,
            r@ == joined(all.take(i as int)),
        decreases n - i,
    {
        let ghost before = all.take(i as int);
        assert(all.take(i + 1).drop_last() =~= before);
        assert(all.take(i + 1).last() == names@[i as int]@);
        if i > 0 {
            push_str(&mut r, ", ");
        } else {
            assert(before =~= Seq::<Seq<char>>::empty());
        }
        push_str(&mut r, names[i].as_str());
        proof {
            if i == 0 {
                assert(all.take(1).len() == 1);
                assert(r@ =~= joined(all.take(1)));
            } else {
                assert(r@ =~= joined(before) + ", "@ + names@[i as int]@);
            }
        }
        i += 1;
    }
    assert(all.take(n as int) =~= all);
    r
}

/// The preflight report of a document from what was found in it.
pub fn preflight_report(f: &PreflightFacts) -> (r: Vec<PreflightIssue>)
    ensures
        r@.map_values(|i: PreflightIssue| issue_view(i)) == preflight_findings(*f),
{
    let mut out: Vec<PreflightIssue> = Vec::new();
    if f.cmyk && f.rgb_count > 0 {
        let mut d = String::new();
        push_decimal(&mut d, f.rgb_count);
        push_str(&mut d, "件がRGBのまま — 書き出し時にCMYK変換されます");
        out.push(issue(PreflightLevel::Warn, "RGBオブジェクト", d));
    } else {
        let d = if f.cmyk { text("全プロセス色はCMYKです") } else { text("RGBドキュメント（印刷時はCMYK変換）") };
        out.push(issue(PreflightLevel::Pass, "カラーモード", d));
    }
    let mut d = text("最大");
    push_str(&mut d, f.worst_ink_percent.as_str());
    if f.ink_over_limit {
        push_str(&mut d, "%（");
        push_str(&mut d, f.worst_ink_name.as_str());
        push_str(&mut d, "）— 320%以下推奨");
        out.push(issue(PreflightLevel::Warn, "インキ総量", d));
    } else {
        push_str(&mut d, "%");
        out.push(issue(PreflightLevel::Pass, "インキ総量", d));
    }
    if f.overprint_white > 0 {
        let mut d = String::new();
        push_decimal(&mut d, f.overprint_white);
        push_str(&mut d, "件 — 白が透けて消えます");
        out.push(issue(PreflightLevel::Fail, "白のオーバープリント", d));
    }
    if f.low_dpi > 0 {
        let mut d = String::new();
        push_decimal(&mut d, f.low_dpi);
        push_str(&mut d, "件が300dpi未満（最低");
        push_str(&mut d, f.lowest_dpi.as_str());
        push_str(&mut d, "dpi）");
        let level = if f.lowest_dpi_failing { PreflightLevel::Fail } else { PreflightLevel::Warn };
        out.push(issue(level, "画像解像度", d));
    } else {
        out.push(issue(PreflightLevel::Pass, "画像解像度", text("配置画像は十分な解像度です")));
    }
    let mut d = text(f.bleed_mm.as_str());
    if f.bleed_short {
        push_str(&mut d, "mm — 3mm推奨");
        out.push(issue(PreflightLevel::Warn, "塗り足し", d));
    } else {
        push_str(&mut d, "mm");
        out.push(issue(PreflightLevel::Pass, "塗り足し", d));
    }
    if f.spot_names.len() == 0 {
        out.push(issue(PreflightLevel::Pass, "特色", text("特色は使われていません")));
    } else {
        let mut d = String::new();
        push_decimal(&mut d, f.spot_names.len());
        push_str(&mut d, "版: ");
        let j = join_names(&f.spot_names);
        push_str(&mut d, j.as_str());
        out.push(issue(PreflightLevel::Pass, "特色", d));
    }
    assert(out@.map_values(|i: PreflightIssue| issue_view(i)) =~= preflight_findings(*f));
    out
}

} // verus!

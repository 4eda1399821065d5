//! Display units for lengths. Geometry is stored in pixels at 96 dpi; the
//! unit only changes what is shown and typed.
use vstd::prelude::*;
use crate::text::{push_str, str_eq};

verus! {

/// A length display unit. It is stored under its Japanese label.
#[derive(Debug, Clone, Copy, PartialEq, Eq, Structural)]
pub enum LengthUnit {
    Px,
    Mm,
    Pt,
    In,
}

impl Default for LengthUnit {
    fn default() -> (r: Self)
        ensures
            r == LengthUnit::Px,
    {
        LengthUnit::Px
    }
}

/// Short suffix shown next to numeric fields.
pub open spec fn unit_suffix(u: LengthUnit) -> Seq<char> {
    match u {
        LengthUnit::Px => "px"@,
        LengthUnit::Mm => "mm"@,
        LengthUnit::Pt => "pt"@,
        LengthUnit::In => "in"@,
    }
}

/// Label used by the selectors and in the preferences file.
pub open spec fn unit_label(u: LengthUnit) -> Seq<char> {
    match u {
        LengthUnit::Px => "ピクセル"@,
        LengthUnit::Mm => "ミリメートル"@,
        LengthUnit::Pt => "ポイント"@,
        LengthUnit::In => "インチ"@,
    }
}

/// The unit a stored label stands for; any other text means px.
pub open spec fn parse_label(s: Seq<char>) -> LengthUnit {
    if s == "ミリメートル"@ {
        LengthUnit::Mm
    } else if s == "ポイント"@ {
        LengthUnit::Pt
    } else if s == "インチ"@ {
        LengthUnit::In
    } else {
        LengthUnit::Px
    }
}

impl LengthUnit {
    /// Every unit, in the order the selectors list them.
    pub const ALL: [LengthUnit; 4] = [LengthUnit::Px, LengthUnit::Mm, LengthUnit::Pt, LengthUnit::In];

    /// Short suffix shown next to numeric fields (`px`, `mm`, `pt`, `in`).
    pub fn suffix(self) -> (r: &'static str)
        ensures
            r@ == unit_suffix(self),
    {
        match self {
            LengthUnit::Px => "px",
            LengthUnit::Mm => "mm",
            LengthUnit::Pt => "pt",
            LengthUnit::In => "in",
        }
    }

    /// Label used by the selectors and stored in the preferences file.
    pub fn label(self) -> (r: &'static str)
        ensures
            r@ == unit_label(self),
    {
        match self {
            LengthUnit::Px => "ピクセル",
            LengthUnit::Mm => "ミリメートル",
            LengthUnit::Pt => "ポイント",
            LengthUnit::In => "インチ",
        }
    }

    /// The unit of a stored or selected label; anything unknown falls back
    /// to px, so a corrupt preferences file cannot break the interface.
    pub fn parse(label: &str) -> (r: LengthUnit)
        ensures
            r == parse_label(label@),
    {
        if str_eq(label, "ミリメートル") {
            LengthUnit::Mm
        } else if str_eq(label, "ポイント") {
            LengthUnit::Pt
        } else if str_eq(label, "インチ") {
            LengthUnit::In
        } else {
            LengthUnit::Px
        }
    }

    /// The suffix of a numeric field, with its leading space (`" mm"`).
    pub fn suffix_label(self) -> (r: String)
        ensures
            r@ == seq![' '] + unit_suffix(self),
    {
        let mut s = String::new();
        push_str(&mut s, " ");
        push_str(&mut s, self.suffix());
        proof {
            reveal_strlit(" ");
        }
        assert(s@ =~= seq![' '] + unit_suffix(self));
        s
    }

    /// Decimal places a coordinate/size field keeps: two for inches, one
    /// otherwise.
    pub fn field_decimals(self) -> (r: usize)
        ensures
            r == (if self == LengthUnit::In { 2usize } else { 1usize }),
    {
        match self {
            LengthUnit::In => 2,
            _ => 1,
        }
    }
}

/// Reading back a stored label gives the unit that wrote it.
pub proof fn law_parse_inverts_label(u: LengthUnit)
    ensures
        parse_label(unit_label(u)) == u,
{
    reveal_strlit("ピクセル");
    reveal_strlit("ミリメートル");
    reveal_strlit("ポイント");
    reveal_strlit("インチ");
    assert("ピクセル"@[0] != "ミリメートル"@[0]);
    assert("ピクセル"@[0] != "ポイント"@[0]);
    assert("ピクセル"@[0] != "インチ"@[0]);
    assert("ポイント"@[0] != "ミリメートル"@[0]);
    assert("インチ"@[0] != "ミリメートル"@[0]);
    assert("インチ"@[0] != "ポイント"@[0]);
}

} // verus!

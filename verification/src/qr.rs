//! QR codes: the symbol for a text is made by the `qrcode` crate; the
//! library lists its dark modules, or says why there is none. Drawing the
//! modules on the page is the caller's part.
use vstd::prelude::*;
use vstd::string::StrSliceExecFns;
use vstd::utf8::encode_utf8;
use qrcode::types::QrError;
use qrcode::{Color, QrCode};

verus! {

/// Why `qrcode` could not make a symbol (its `QrError`).
#[derive(PartialEq, Eq, Structural, Clone, Copy, Debug)]
pub enum QrFailure {
    DataTooLong,
    InvalidVersion,
    UnsupportedCharacterSet,
    InvalidEciDesignator,
    InvalidCharacter,
}

/// The message of a failure, as `qrcode`'s `Display` writes it.
pub open spec fn failure_text(f: QrFailure) -> Seq<char> {
    match f {
        QrFailure::DataTooLong => "data too long"@,
        QrFailure::InvalidVersion => "invalid version"@,
        QrFailure::UnsupportedCharacterSet => "unsupported character set"@,
        QrFailure::InvalidEciDesignator => "invalid ECI designator"@,
        QrFailure::InvalidCharacter => "invalid character"@,
    }
}

impl QrFailure {
    /// The message of the failure.
    pub fn message(&self) -> (r: &'static str)
        ensures
            r@ == failure_text(*self),
    {
        match self {
            QrFailure::DataTooLong => "data too long",
            QrFailure::InvalidVersion => "invalid version",
            QrFailure::UnsupportedCharacterSet => "unsupported character set",
            QrFailure::InvalidEciDesignator => "invalid ECI designator",
            QrFailure::InvalidCharacter => "invalid character",
        }
    }
}

/// What `qrcode::QrCode::new` makes of some bytes: the symbol's width and
/// its modules in row-major order (`true` = dark), or why it fails.
pub uninterp spec fn qr_encoding(data: Seq<u8>) -> Result<(nat, Seq<bool>), QrFailure>;

/// `qrcode::QrCode::new(data)`, then `width()` and `to_colors()` with
/// `Color::Dark` as `true`; a `QrError` becomes the `QrFailure` of the same
/// name. Claimed: the outcome is `qr_encoding` of the bytes, and there are
/// `width * width` modules (the crate's canvas holds that many).
#[verifier::external_body]
fn qr_encode(data: &[u8]) -> (r: Result<(usize, Vec<bool>), QrFailure>)
    ensures
        match r {
            Ok((w, modules)) => qr_encoding(data@) == Ok::<(nat, Seq<bool>), QrFailure>((w as nat, modules@))
                && modules@.len() == w * w,
            Err(f) => qr_encoding(data@) == Err::<(nat, Seq<bool>), QrFailure>(f),
        },
{
    match QrCode::new(data) {
        Ok(code) => Ok((code.width(), code.to_colors().into_iter().map(|c| c == Color::Dark).collect())),
        Err(QrError::DataTooLong) => Err(QrFailure::DataTooLong),
        Err(QrError::InvalidVersion) => Err(QrFailure::InvalidVersion),
        Err(QrError::UnsupportedCharacterSet) => Err(QrFailure::UnsupportedCharacterSet),
        Err(QrError::InvalidEciDesignator) => Err(QrFailure::InvalidEciDesignator),
        Err(QrError::InvalidCharacter) => Err(QrFailure::InvalidCharacter),
    }
}

/// The dark modules `(x, y)` among the first `n` of row `y` of a
/// row-major grid `width` modules wide.
pub open spec fn dark_in_row(width: nat, modules: Seq<bool>, y: nat, n: nat) -> Seq<(usize, usize)>
    decreases n,
{
    if n == 0 {
        Seq::empty()
    } else {
        let x = (n - 1) as nat;
        dark_in_row(width, modules, y, x)
            + if modules[(y * width + x) as int] { seq![(x as usize, y as usize)] } else { Seq::empty() }
    }
}

/// The dark modules of the first `rows` rows, row by row.
pub open spec fn dark_cells(width: nat, modules: Seq<bool>, rows: nat) -> Seq<(usize, usize)>
    decreases rows,
{
    if rows == 0 {
        Seq::empty()
    } else {
        dark_cells(width, modules, (rows - 1) as nat) + dark_in_row(width, modules, (rows - 1) as nat, width)
    }
}

/// The dark modules `(x, y)` of a square symbol `width` modules wide, in
/// row order.
pub fn dark_modules(width: usize, modules: &Vec<bool>) -> (r: Vec<(usize, usize)>)
    requires
        modules@.len() == width * width,
    ensures
        r@ == dark_cells(width as nat, modules@, width as nat),
{
    let total = modules.len();
    let mut out: Vec<(usize, usize)> = Vec::new();
    let mut y: usize = 0;
    while y < width
        invariant
            y <= width,
            total == modules@.len(),
            total == width * width,
            out@ == dark_cells(width as nat, modules@, y as nat),
        decreases width - y,
    {
        let ghost before = out@;
        let mut x: usize = 0;
        while x < width
            invariant
                x <= width,
                y < width,
                total == modules@.len(),
                total == width * width,
                out@ == before + dark_in_row(width as nat, modules@, y as nat, x as nat),
            decreases width - x,
        {
            proof {
                assert(y * width + x < width * width) by (nonlinear_arith)
                    requires x < width, y < width;
            }
            if modules[y * width + x] {
                out.push((x, y));
            }
            assert(out@ =~= before + dark_in_row(width as nat, modules@, y as nat, (x + 1) as nat));
            x += 1;
        }
        y += 1;
    }
    out
}

/// The QR code for the UTF-8 bytes of `text`: its width and its dark
/// modules in row order, or the failure's message.
pub fn qr_modules(text: &str) -> (r: Result<(usize, Vec<(usize, usize)>), String>)
    ensures
        match qr_encoding(encode_utf8(text@)) {
            Ok((w, m)) => r matches Ok((rw, cells)) && rw as nat == w && cells@ == dark_cells(w, m, w),
            Err(f) => r matches Err(msg) && msg@ == failure_text(f),
        },
{
    let bytes = text.as_bytes_vec();
    match qr_encode(bytes.as_slice()) {
        Ok((w, modules)) => Ok((w, dark_modules(w, &modules))),
        Err(f) => Err(f.message().to_string()),
    }
}

} // verus!

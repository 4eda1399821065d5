use amata::qr::{dark_modules, qr_modules, QrFailure};

#[test]
fn short_text_is_a_version_one_symbol() {
    let (width, cells) = qr_modules("hello").expect("encodable");
    assert_eq!(width, 21);
    // The finder pattern's corner module is dark.
    assert!(cells.contains(&(0, 0)));
    assert!(cells.iter().all(|&(x, y)| x < width && y < width));
}

#[test]
fn modules_match_the_encoder_row_by_row() {
    let code = qrcode::QrCode::new("amata".as_bytes()).unwrap();
    let w = code.width();
    let colors = code.to_colors();
    let mut expected = Vec::new();
    for y in 0..w {
        for x in 0..w {
            if colors[y * w + x] == qrcode::Color::Dark {
                expected.push((x, y));
            }
        }
    }
    let (width, cells) = qr_modules("amata").unwrap();
    assert_eq!(width, w);
    assert_eq!(cells, expected);
}

#[test]
fn overlong_text_reports_the_encoder_message() {
    let long = "a".repeat(5000);
    assert_eq!(qr_modules(&long), Err("data too long".to_string()));
    assert_eq!(QrFailure::InvalidCharacter.message(), "invalid character");
}

#[test]
fn dark_modules_lists_row_major() {
    let m = vec![true, false, false, true];
    assert_eq!(dark_modules(2, &m), vec![(0, 0), (1, 1)]);
    assert!(dark_modules(0, &Vec::new()).is_empty());
}

use amata::barcode::barcode_bits;

const START: [u8; 11] = [1, 1, 0, 1, 0, 0, 1, 0, 0, 0, 0];
const STOP: [u8; 13] = [1, 1, 0, 0, 0, 1, 1, 1, 0, 1, 0, 1, 1];

#[test]
fn empty_data_is_start_and_stop_only() {
    let bits = barcode_bits("");
    let mut expected = START.to_vec();
    expected.extend_from_slice(&STOP);
    assert_eq!(bits, expected);
}

#[test]
fn each_byte_gives_eleven_bars_of_its_value_mod_100() {
    // 'A' is 65 = 0b1000001: bars are bits 0..6, then bits 0..3 again.
    let bits = barcode_bits("A");
    assert_eq!(bits.len(), 11 + 11 + 13);
    assert_eq!(&bits[11..22], &[1, 0, 0, 0, 0, 0, 1, 1, 0, 0, 0]);
    // 'x' is 120, taken mod 100: 20 = 0b0010100.
    let bits = barcode_bits("x");
    assert_eq!(&bits[11..22], &[0, 0, 1, 0, 1, 0, 0, 0, 0, 1, 0]);
}

#[test]
fn multibyte_characters_count_each_utf8_byte() {
    // 'é' is two bytes in UTF-8.
    assert_eq!(barcode_bits("é").len(), 11 + 22 + 13);
}

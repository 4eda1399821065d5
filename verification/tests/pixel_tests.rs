use amata::pixel::{PixelArt, MAX_PIXEL_DIM, TRANSPARENT};

fn rgba(r: f32, g: f32, b: f32, a: f32) -> [u32; 4] {
    [r.to_bits(), g.to_bits(), b.to_bits(), a.to_bits()]
}

#[test]
fn bresenham_paints_connected_line() {
    let mut p = PixelArt::new(8, 8, vec![rgba(1.0, 0.0, 0.0, 1.0)]);
    assert_eq!(p.stroke_line(0, 0, 7, 0, 0), 8);
    assert_eq!(p.stroke_line(0, 0, 7, 0, 0), 0, "repaint is a no-op");
    assert_eq!(p.stroke_line(0, 0, 0, 7, 0), 7, "corner shared");
}

#[test]
fn flood_fill_stays_inside_bounds() {
    let mut p = PixelArt::new(4, 4, vec![rgba(1.0, 0.0, 0.0, 1.0), rgba(0.0, 0.0, 1.0, 1.0)]);
    // Border of color 0, hollow interior.
    for x in 0..4 {
        p.set(x, 0, 0);
        p.set(x, 3, 0);
        p.set(0, x, 0);
        p.set(3, x, 0);
    }
    assert_eq!(p.flood_fill(1, 1, 1), 4, "only the hollow interior");
    assert_eq!(p.get(0, 0), 0, "border untouched");
    assert_eq!(p.flood_fill(9, 9, 1), 0, "out of bounds");
    assert_eq!(p.flood_fill(1, 1, 1), 0, "same value is a no-op");
}

#[test]
fn normalize_repairs_foreign_data() {
    let mut p = PixelArt { width: 9999, height: 2, cells: vec![0, 7, TRANSPARENT], palette: vec![] };
    p.normalize();
    assert_eq!((p.width, p.height), (MAX_PIXEL_DIM, 2));
    assert_eq!(p.cells.len(), p.cell_count());
    assert_eq!(p.palette.len(), 1);
    assert_eq!(p.cells[1], TRANSPARENT, "out-of-palette index erased");
}

#[test]
fn diagonal_line_and_out_of_range_cells() {
    let mut p = PixelArt::new(4, 4, vec![rgba(0.0, 0.0, 0.0, 1.0)]);
    assert_eq!(p.stroke_line(-2, -2, 5, 5, 0), 4, "only in-bounds cells of the diagonal");
    assert_eq!(p.get(3, 3), 0);
    assert_eq!(p.get(1, 0), TRANSPARENT);
    assert_eq!(p.painted_count(), 4);
    assert_eq!(p.stroke_line(0, 0, 3, 0, 9), 0, "index past the palette paints nothing");
    assert!(!p.set(4, 0, 0));
    assert_eq!(p.get(-1, 0), TRANSPARENT);
}

#[test]
fn flood_fill_recolours_a_connected_region_only() {
    let mut p = PixelArt::new(3, 3, vec![rgba(1.0, 1.0, 1.0, 1.0), rgba(0.0, 0.0, 0.0, 1.0)]);
    // A wall down the middle column.
    for y in 0..3 {
        p.set(1, y, 1);
    }
    assert_eq!(p.flood_fill(0, 0, 0), 3);
    assert_eq!(p.get(0, 2), 0);
    assert_eq!(p.get(2, 0), TRANSPARENT, "the other side of the wall stays");
    // Erasing with the transparent index is allowed.
    assert_eq!(p.flood_fill(1, 1, TRANSPARENT), 3);
    assert_eq!(p.painted_count(), 3);
}

#[test]
fn new_clamps_and_fills_palette() {
    let p = PixelArt::new(0, 1000, vec![]);
    assert_eq!((p.width, p.height), (1, MAX_PIXEL_DIM));
    assert_eq!(p.palette.len(), 1);
    assert_eq!(p.cells.len(), 256);
    let mut q = PixelArt::new(2, 2, vec![rgba(1.0, 0.0, 0.0, 1.0)]);
    assert_eq!(q.push_color(rgba(1.0, 0.0, 0.0, 1.0)), Some(0));
    assert_eq!(q.push_color(rgba(0.0, 1.0, 0.0, 1.0)), Some(1));
    assert_eq!(q.palette.len(), 2);
}

#[test]
fn checksum_tracks_cells() {
    let mut p = PixelArt::new(2, 2, vec![rgba(1.0, 0.0, 0.0, 1.0)]);
    let before = p.checksum();
    assert_eq!(before, p.checksum());
    p.set(0, 0, 0);
    assert_ne!(before, p.checksum());
}

fn rgba8(bits: [u32; 4]) -> [u8; 4] {
    let mut out = [0u8; 4];
    for k in 0..4 {
        out[k] = (f32::from_bits(bits[k]) * 255.0).round().clamp(0.0, 255.0) as u8;
    }
    out
}

#[test]
fn transparent_cells_decode_as_zero_alpha() {
    let mut p = PixelArt::new(2, 1, vec![rgba(1.0, 0.0, 0.0, 1.0)]);
    p.set(0, 0, 0);
    let px = p.to_rgba8(rgba8);
    assert_eq!(&px[0..4], &[255, 0, 0, 255]);
    assert_eq!(&px[4..8], &[0, 0, 0, 0]);
}

#[test]
fn out_of_palette_cells_decode_as_nothing() {
    let mut p = PixelArt::new(3, 1, vec![rgba(0.0, 0.0, 1.0, 0.5)]);
    p.set(0, 0, 0);
    p.cells[1] = 7;
    let px = p.to_rgba8(rgba8);
    assert_eq!(px.len(), 12);
    assert_eq!(&px[0..4], &[0, 0, 255, 128]);
    assert_eq!(&px[4..8], &[0, 0, 0, 0]);
    assert_eq!(&px[8..12], &[0, 0, 0, 0]);
}

//! Pixel-art grids: a W×H grid of palette indices.
use vstd::prelude::*;

verus! {

/// Cell value meaning "no pixel here".
pub const TRANSPARENT: u8 = 255;

/// Maximum grid dimension (either side).
pub const MAX_PIXEL_DIM: u32 = 256;

/// Maximum palette entries (index 255 is reserved for transparency).
pub const MAX_PALETTE: usize = 255;

/// IEEE-754 bits of the four `f32` channels of the colour black.
pub const BLACK_BITS: [u32; 4] = [0, 0, 0, 0x3f80_0000];

/// A pixel-art layer: grid and palette. Palette colours are held as the
/// IEEE-754 bit patterns of their four `f32` channels (linear RGBA).
pub struct PixelArt {
    pub width: u32,
    pub height: u32,
    /// Row-major cells (`y * width + x`), `TRANSPARENT` = erased.
    pub cells: Vec<u8>,
    pub palette: Vec<[u32; 4]>,
}

/// Number of cells that are not transparent.
pub open spec fn count_painted(cells: Seq<u8>) -> nat
    decreases cells.len(),
{
    if cells.len() == 0 {
        0
    } else {
        count_painted(cells.drop_last()) + (if cells.last() != TRANSPARENT { 1nat } else { 0nat })
    }
}

pub open spec fn clamp_dim(v: u32) -> u32 {
    if v < 1 { 1 } else if v > MAX_PIXEL_DIM { MAX_PIXEL_DIM } else { v }
}

impl PixelArt {
    /// Dimensions within the cap and exactly one cell per grid position.
    pub open spec fn sized(&self) -> bool {
        &&& self.width <= MAX_PIXEL_DIM
        &&& self.height <= MAX_PIXEL_DIM
        &&& self.cells@.len() == self.width * self.height
    }

    /// Every grid position has its cell, and the row-major index of each
    /// fits in a `u32`.
    pub open spec fn indexable(&self) -> bool {
        &&& self.width * self.height <= self.cells@.len()
        &&& self.width * self.height <= u32::MAX
    }

    /// All invariants that `normalize` repairs.
    pub open spec fn wf(&self) -> bool {
        &&& self.sized()
        &&& 1 <= self.width
        &&& 1 <= self.height
        &&& 1 <= self.palette@.len() <= MAX_PALETTE
        &&& forall|k: int| 0 <= k < self.cells@.len() ==> (#[trigger] self.cells@[k] == TRANSPARENT
            || (self.cells@[k] as int) < self.palette@.len())
    }

    pub open spec fn inside(&self, x: int, y: int) -> bool {
        0 <= x < self.width && 0 <= y < self.height
    }

    /// The value of a cell; `TRANSPARENT` outside the grid.
    pub open spec fn cell(&self, x: int, y: int) -> u8 {
        if self.inside(x, y) { self.cells@[y * self.width + x] } else { TRANSPARENT }
    }

    /// Whether `index` may be painted.
    pub open spec fn paintable(&self, index: u8) -> bool {
        index == TRANSPARENT || (index as int) < self.palette@.len()
    }
}

pub proof fn lemma_cell_index(w: int, h: int, x: int, y: int)
    requires
        0 <= x < w,
        0 <= y < h,
        w <= 256,
        h <= 256,
    ensures
        0 <= y * w + x < w * h,
        y * w + x < 65536,
        0 <= y * w <= 65536,
{
    assert(w * h <= 65536) by (nonlinear_arith)
        requires 0 <= w <= 256, 0 <= h <= 256;
    assert(0 <= y * w) by (nonlinear_arith)
        requires 0 <= y, 0 <= w;
    assert(y * w + x < w * h) by (nonlinear_arith)
        requires 0 <= x < w, 0 <= y < h;
}

impl PixelArt {
    /// Blank grid; dimensions are clamped to 1..=256, an empty palette gets
    /// black and a long one is cut to 255 entries.
    pub fn new(width: u32, height: u32, palette: Vec<[u32; 4]>) -> (p: PixelArt)
        ensures
            p.wf(),
            p.width == clamp_dim(width),
            p.height == clamp_dim(height),
            forall|k: int| 0 <= k < p.cells@.len() ==> #[trigger] p.cells@[k] == TRANSPARENT,
            p.palette@ == (if palette@.len() == 0 {
                seq![BLACK_BITS]
            } else if palette@.len() > MAX_PALETTE {
                palette@.take(MAX_PALETTE as int)
            } else {
                palette@
            }),
    {
        let width = if width < 1 { 1 } else if width > MAX_PIXEL_DIM { MAX_PIXEL_DIM } else { width };
        let height = if height < 1 { 1 } else if height > MAX_PIXEL_DIM { MAX_PIXEL_DIM } else { height };
        let mut palette = palette;
        if palette.len() == 0 {
            palette.push(BLACK_BITS);
        }
        palette.truncate(MAX_PALETTE);
        assert(width * height <= 65536) by (nonlinear_arith)
            requires width <= 256, height <= 256;
        let count = (width * height) as usize;
        let cells = vec![TRANSPARENT; count];
        PixelArt { width, height, cells, palette }
    }

    pub fn cell_count(&self) -> (r: usize)
        requires
            self.width <= MAX_PIXEL_DIM,
            self.height <= MAX_PIXEL_DIM,
        ensures
            r == self.width * self.height,
    {
        assert(self.width * self.height <= 65536) by (nonlinear_arith)
            requires self.width <= 256, self.height <= 256;
        (self.width as usize) * (self.height as usize)
    }

    /// Repair invariants after deserialization: clamp the dimensions, keep
    /// 1..=255 palette entries, size the grid (new cells transparent) and
    /// erase cells that point past the palette.
    pub fn normalize(&mut self)
        ensures
            final(self).wf(),
            final(self).width == clamp_dim(old(self).width),
            final(self).height == clamp_dim(old(self).height),
            final(self).palette@ == (if old(self).palette@.len() == 0 {
                seq![BLACK_BITS]
            } else if old(self).palette@.len() > MAX_PALETTE {
                old(self).palette@.take(MAX_PALETTE as int)
            } else {
                old(self).palette@
            }),
            forall|k: int| 0 <= k < final(self).cells@.len() ==> #[trigger] final(self).cells@[k] == (
                if k < old(self).cells@.len() {
                    let c = old(self).cells@[k];
                    if c != TRANSPARENT && (c as int) >= final(self).palette@.len() { TRANSPARENT } else { c }
                } else {
                    TRANSPARENT
                }),
    {
        self.width = if self.width < 1 { 1 } else if self.width > MAX_PIXEL_DIM { MAX_PIXEL_DIM } else { self.width };
        self.height = if self.height < 1 { 1 } else if self.height > MAX_PIXEL_DIM { MAX_PIXEL_DIM } else { self.height };
        if self.palette.len() == 0 {
            self.palette.push(BLACK_BITS);
        }
        self.palette.truncate(MAX_PALETTE);
        let count = self.cell_count();
        let ghost pal = self.palette@;
        let ghost old_cells = self.cells@;
        self.cells.resize(count, TRANSPARENT);
        let ghost sized_cells = self.cells@;
        let n = self.palette.len() as u8;
        let len = self.cells.len();
        for i in 0..len
            invariant
                len == self.cells@.len(),
                len == count,
                count == self.width * self.height,
                self.width == clamp_dim(old(self).width),
                self.height == clamp_dim(old(self).height),
                1 <= self.palette@.len() <= MAX_PALETTE,
                self.palette@ == pal,
                n as int == self.palette@.len(),
                sized_cells.len() == len,
                forall|k: int| 0 <= k < len ==> #[trigger] sized_cells[k] == (if k < old_cells.len() { old_cells[k] } else { TRANSPARENT }),
                forall|k: int| i <= k < len ==> #[trigger] self.cells@[k] == sized_cells[k],
                forall|k: int| 0 <= k < i ==> #[trigger] self.cells@[k] == (
                    if sized_cells[k] != TRANSPARENT && sized_cells[k] >= n { TRANSPARENT } else { sized_cells[k] }),
        {
            let c = self.cells[i];
            if c != TRANSPARENT && c >= n {
                self.cells.set(i, TRANSPARENT);
            }
        }
    }

    pub fn in_bounds(&self, x: i32, y: i32) -> (r: bool)
        ensures
            r == self.inside(x as int, y as int),
    {
        x >= 0 && y >= 0 && (x as u32) < self.width && (y as u32) < self.height
    }

    pub fn get(&self, x: i32, y: i32) -> (r: u8)
        requires
            self.indexable(),
        ensures
            r == self.cell(x as int, y as int),
    {
        if !self.in_bounds(x, y) {
            return TRANSPARENT;
        }
        proof { lemma_cell_index_any(self.width as int, self.height as int, x as int, y as int); }
        self.cells[(y as u32 * self.width + x as u32) as usize]
    }

    /// Paint one cell; true when the grid changed.
    pub fn set(&mut self, x: i32, y: i32, index: u8) -> (r: bool)
        requires
            old(self).indexable(),
        ensures
            final(self).width == old(self).width,
            final(self).height == old(self).height,
            final(self).palette == old(self).palette,
            r == (old(self).inside(x as int, y as int) && old(self).paintable(index)
                && old(self).cell(x as int, y as int) != index),
            final(self).cells@ == (if r {
                old(self).cells@.update(y * old(self).width + x, index)
            } else {
                old(self).cells@
            }),
    {
        if !self.in_bounds(x, y) {
            return false;
        }
        if index != TRANSPARENT && (index as usize) >= self.palette.len() {
            return false;
        }
        proof { lemma_cell_index_any(self.width as int, self.height as int, x as int, y as int); }
        let k = (y as u32 * self.width + x as u32) as usize;
        if self.cells[k] == index {
            return false;
        }
        self.cells.set(k, index);
        true
    }

    /// Number of opaque cells.
    pub fn painted_count(&self) -> (r: usize)
        ensures
            r == count_painted(self.cells@),
    {
        let mut count: usize = 0;
        let n = self.cells.len();
        for i in 0..n
            invariant
                n == self.cells@.len(),
                count == count_painted(self.cells@.take(i as int)),
                count <= i,
        {
            assert(self.cells@.take(i + 1).drop_last() =~= self.cells@.take(i as int));
            if self.cells[i] != TRANSPARENT {
                count += 1;
            }
        }
        assert(self.cells@.take(n as int) =~= self.cells@);
        count
    }
}

/// The four RGBA8 bytes of one cell: nothing for an erased cell or an
/// index outside the palette, else some bytes that `bytes_of` may give
/// for that palette colour.
pub open spec fn decoded_cell<F: Fn([u32; 4]) -> [u8; 4]>(pal: Seq<[u32; 4]>, c: u8, px: Seq<u8>, bytes_of: F) -> bool {
    if c == TRANSPARENT || c as int >= pal.len() {
        px == seq![0u8, 0u8, 0u8, 0u8]
    } else {
        exists|b: [u8; 4]| #[trigger] bytes_of.ensures((pal[c as int],), b) && px == b@
    }
}

impl PixelArt {
    /// Row-major RGBA8 raster, four bytes per cell; `bytes_of` turns a
    /// palette colour into its bytes.
    pub fn to_rgba8<F: Fn([u32; 4]) -> [u8; 4]>(&self, bytes_of: F) -> (out: Vec<u8>)
        requires
            forall|c: [u32; 4]| #[trigger] bytes_of.requires((c,)),
            self.cells@.len() * 4 <= usize::MAX,
        ensures
            out@.len() == 4 * self.cells@.len(),
            forall|i: int| 0 <= i < self.cells@.len() ==>
                decoded_cell(self.palette@, #[trigger] self.cells@[i], out@.subrange(4 * i, 4 * i + 4), bytes_of),
    {
        let mut out: Vec<u8> = Vec::new();
        let n = self.cells.len();
        for i in 0..n
            invariant
                n == self.cells@.len(),
                n * 4 <= usize::MAX,
                forall|c: [u32; 4]| #[trigger] bytes_of.requires((c,)),
                out@.len() == 4 * i,
                forall|j: int| 0 <= j < i ==>
                    decoded_cell(self.palette@, #[trigger] self.cells@[j], out@.subrange(4 * j, 4 * j + 4), bytes_of),
        {
            let c = self.cells[i];
            let px: [u8; 4] = if c == TRANSPARENT || c as usize >= self.palette.len() {
                [0u8, 0u8, 0u8, 0u8]
            } else {
                bytes_of(self.palette[c as usize])
            };
            let ghost before = out@;
            out.push(px[0]);
            out.push(px[1]);
            out.push(px[2]);
            out.push(px[3]);
            proof {
                assert(out@.subrange(4 * i, 4 * i + 4) =~= px@);
                assert forall|j: int| 0 <= j < i + 1 implies
                    decoded_cell(self.palette@, #[trigger] self.cells@[j], out@.subrange(4 * j, 4 * j + 4), bytes_of) by {
                    if j < i {
                        assert(out@.subrange(4 * j, 4 * j + 4) =~= before.subrange(4 * j, 4 * j + 4));
                    }
                }
            }
        }
        out
    }
}


/// The modulus of 64-bit wrapping arithmetic.
pub open spec fn two64() -> int {
    0x1_0000_0000_0000_0000
}

/// One step of the change-detector hash: xor, then multiply by the FNV
/// prime modulo 2^64.
pub open spec fn hash_step(h: u64, v: u64) -> u64 {
    (((h ^ v) as int * 0x100000001b3) % two64()) as u64
}

pub open spec fn hash_cells(h: u64, cells: Seq<u8>) -> u64
    decreases cells.len(),
{
    if cells.len() == 0 { h } else { hash_step(hash_cells(h, cells.drop_last()), cells.last() as u64) }
}

pub open spec fn hash_color(h: u64, c: [u32; 4]) -> u64 {
    hash_step(hash_step(hash_step(hash_step(h, c[0] as u64), c[1] as u64), c[2] as u64), c[3] as u64)
}

pub open spec fn hash_palette(h: u64, pal: Seq<[u32; 4]>) -> u64
    decreases pal.len(),
{
    if pal.len() == 0 { h } else { hash_color(hash_palette(h, pal.drop_last()), pal.last()) }
}

/// Starting value of the hash.
pub const HASH_SEED: u64 = 0xcbf29ce4842225;

fn step(h: u64, v: u64) -> (r: u64)
    ensures
        r == hash_step(h, v),
{
    (h ^ v).wrapping_mul(0x100000001b3)
}

/// IEEE-754 equality of two `f32` values given by their bits: NaN equals
/// nothing, the two zeros are equal, otherwise the bits must agree.
pub open spec fn f32_bits_eq(a: u32, b: u32) -> bool {
    let a_nan = (a & 0x7f80_0000) == 0x7f80_0000 && (a & 0x007f_ffff) != 0;
    let b_nan = (b & 0x7f80_0000) == 0x7f80_0000 && (b & 0x007f_ffff) != 0;
    if a_nan || b_nan {
        false
    } else if (a & 0x7fff_ffff) == 0 && (b & 0x7fff_ffff) == 0 {
        true
    } else {
        a == b
    }
}

/// Channel-wise float equality of two colours.
pub open spec fn same_color(a: [u32; 4], b: [u32; 4]) -> bool {
    f32_bits_eq(a[0], b[0]) && f32_bits_eq(a[1], b[1]) && f32_bits_eq(a[2], b[2]) && f32_bits_eq(a[3], b[3])
}

fn f32_eq(a: u32, b: u32) -> (r: bool)
    ensures
        r == f32_bits_eq(a, b),
{
    let a_nan = (a & 0x7f80_0000) == 0x7f80_0000 && (a & 0x007f_ffff) != 0;
    let b_nan = (b & 0x7f80_0000) == 0x7f80_0000 && (b & 0x007f_ffff) != 0;
    if a_nan || b_nan {
        false
    } else if (a & 0x7fff_ffff) == 0 && (b & 0x7fff_ffff) == 0 {
        true
    } else {
        a == b
    }
}

/// Index of the first palette entry equal to `c`.
pub open spec fn color_position(pal: Seq<[u32; 4]>, c: [u32; 4]) -> Option<nat>
    decreases pal.len(),
{
    if pal.len() == 0 {
        None
    } else if same_color(pal[0], c) {
        Some(0)
    } else {
        match color_position(pal.drop_first(), c) {
            Some(p) => Some(p + 1),
            None => None,
        }
    }
}

impl PixelArt {
    /// Cheap change detector (FNV-style over cells, palette bits and size).
    pub fn checksum(&self) -> (r: u64)
        ensures
            r == hash_step(hash_palette(hash_cells(HASH_SEED, self.cells@), self.palette@),
                ((self.width as u64) << 32u64) | (self.height as u64)),
    {
        let mut h: u64 = HASH_SEED;
        let n = self.cells.len();
        for i in 0..n
            invariant
                n == self.cells@.len(),
                h == hash_cells(HASH_SEED, self.cells@.take(i as int)),
        {
            assert(self.cells@.take(i + 1).drop_last() =~= self.cells@.take(i as int));
            h = step(h, self.cells[i] as u64);
        }
        assert(self.cells@.take(n as int) =~= self.cells@);
        let ghost hc = h;
        let m = self.palette.len();
        for j in 0..m
            invariant
                m == self.palette@.len(),
                h == hash_palette(hc, self.palette@.take(j as int)),
        {
            assert(self.palette@.take(j + 1).drop_last() =~= self.palette@.take(j as int));
            let col = self.palette[j];
            h = step(h, col[0] as u64);
            h = step(h, col[1] as u64);
            h = step(h, col[2] as u64);
            h = step(h, col[3] as u64);
        }
        assert(self.palette@.take(m as int) =~= self.palette@);
        step(h, ((self.width as u64) << 32u64) | (self.height as u64))
    }

    /// Index of an equal palette colour, else append it; `None` when the
    /// palette is full.
    pub fn push_color(&mut self, color: [u32; 4]) -> (r: Option<u8>)
        ensures
            final(self).width == old(self).width,
            final(self).height == old(self).height,
            final(self).cells == old(self).cells,
            match color_position(old(self).palette@, color) {
                Some(p) => r == Some(p as u8) && final(self).palette@ == old(self).palette@,
                None => if old(self).palette@.len() >= MAX_PALETTE {
                    r is None && final(self).palette@ == old(self).palette@
                } else {
                    r == Some(old(self).palette@.len() as u8) && final(self).palette@ == old(self).palette@.push(color)
                },
            },
    {
        let n = self.palette.len();
        assert(self.palette@.skip(0) =~= self.palette@);
        let mut i: usize = 0;
        while i < n
            invariant
                n == self.palette@.len(),
                i <= n,
                self.palette@ == old(self).palette@,
                color_position(self.palette@, color) == (match color_position(self.palette@.skip(i as int), color) {
                    Some(p) => Some((p + i) as nat),
                    None => None::<nat>,
                }),
            decreases n - i,
        {
            assert(self.palette@.skip(i as int).drop_first() =~= self.palette@.skip(i + 1));
            let c = self.palette[i];
            if f32_eq(c[0], color[0]) && f32_eq(c[1], color[1]) && f32_eq(c[2], color[2]) && f32_eq(c[3], color[3]) {
                proof { lemma_color_position_bound(self.palette@, color); }
                return Some(i as u8);
            }
            i += 1;
        }
        if self.palette.len() >= MAX_PALETTE {
            return None;
        }
        self.palette.push(color);
        Some((self.palette.len() - 1) as u8)
    }
}

pub proof fn lemma_color_position_bound(pal: Seq<[u32; 4]>, c: [u32; 4])
    ensures
        color_position(pal, c) matches Some(p) ==> p < pal.len(),
    decreases pal.len(),
{
    if pal.len() > 0 {
        lemma_color_position_bound(pal.drop_first(), c);
    }
}


pub open spec fn iabs(v: int) -> int {
    if v < 0 { -v } else { v }
}

pub open spec fn line_dir(from: int, to: int) -> int {
    if from < to { 1 } else { -1 }
}

/// Bresenham's walk from `(x, y)` with error term `err` towards
/// `(x1, y1)`, for at most `fuel` steps: the cells it visits.
pub open spec fn walk(x: int, y: int, err: int, x1: int, y1: int, a: int, b: int, sx: int, sy: int, fuel: nat) -> Seq<(int, int)>
    decreases fuel,
{
    if (x == x1 && y == y1) || fuel == 0 {
        seq![(x, y)]
    } else {
        let e2 = 2 * err;
        let x2 = if e2 >= -b { x + sx } else { x };
        let err2 = if e2 >= -b { err - b } else { err };
        let y2 = if e2 <= a { y + sy } else { y };
        let err3 = if e2 <= a { err2 + a } else { err2 };
        seq![(x, y)] + walk(x2, y2, err3, x1, y1, a, b, sx, sy, (fuel - 1) as nat)
    }
}

/// The cells of the Bresenham line from `(x0, y0)` to `(x1, y1)`, both ends
/// included.
pub open spec fn line_cells(x0: int, y0: int, x1: int, y1: int) -> Seq<(int, int)> {
    let a = iabs(x1 - x0);
    let b = iabs(y1 - y0);
    walk(x0, y0, a - b, x1, y1, a, b, line_dir(x0, x1), line_dir(y0, y1), (a + b) as nat)
}

/// The grid after painting the in-bounds points of `pts` in order (nothing
/// changes when `ok` is false).
pub open spec fn paint_cells(cells: Seq<u8>, w: int, h: int, pts: Seq<(int, int)>, index: u8, ok: bool) -> Seq<u8>
    decreases pts.len(),
{
    if pts.len() == 0 {
        cells
    } else {
        let c = paint_cells(cells, w, h, pts.drop_last(), index, ok);
        let (x, y) = pts.last();
        if ok && 0 <= x < w && 0 <= y < h { c.update(y * w + x, index) } else { c }
    }
}

/// How many of those paint operations changed a cell.
pub open spec fn paint_count(cells: Seq<u8>, w: int, h: int, pts: Seq<(int, int)>, index: u8, ok: bool) -> nat
    decreases pts.len(),
{
    if pts.len() == 0 {
        0
    } else {
        let c = paint_cells(cells, w, h, pts.drop_last(), index, ok);
        let (x, y) = pts.last();
        paint_count(cells, w, h, pts.drop_last(), index, ok)
            + (if ok && 0 <= x < w && 0 <= y < h && c[y * w + x] != index { 1nat } else { 0nat })
    }
}

/// Number of cells that differ from `v`.
pub open spec fn count_neq(cells: Seq<u8>, v: u8) -> nat
    decreases cells.len(),
{
    if cells.len() == 0 { 0 } else { count_neq(cells.drop_last(), v) + (if cells.last() != v { 1nat } else { 0nat }) }
}

pub proof fn lemma_count_neq_bound(cells: Seq<u8>, v: u8)
    ensures
        count_neq(cells, v) <= cells.len(),
    decreases cells.len(),
{
    if cells.len() > 0 {
        lemma_count_neq_bound(cells.drop_last(), v);
    }
}

pub proof fn lemma_count_neq_update(cells: Seq<u8>, k: int, v: u8)
    requires
        0 <= k < cells.len(),
        cells[k] != v,
    ensures
        count_neq(cells.update(k, v), v) + 1 == count_neq(cells, v),
    decreases cells.len(),
{
    let u = cells.update(k, v);
    if k < cells.len() - 1 {
        lemma_count_neq_update(cells.drop_last(), k, v);
        assert(u.drop_last() =~= cells.drop_last().update(k, v));
    } else {
        assert(u.drop_last() =~= cells.drop_last());
    }
}

pub proof fn lemma_paint_len(cells: Seq<u8>, w: int, h: int, pts: Seq<(int, int)>, index: u8, ok: bool)
    requires
        cells.len() == w * h,
        0 <= w,
        0 <= h,
    ensures
        paint_cells(cells, w, h, pts, index, ok).len() == cells.len(),
    decreases pts.len(),
{
    if pts.len() > 0 {
        lemma_paint_len(cells, w, h, pts.drop_last(), index, ok);
        let (x, y) = pts.last();
        if 0 <= x < w && 0 <= y < h {
            lemma_cell_index_any(w, h, x, y);
        }
    }
}

/// After painting, every in-bounds point of the stroke holds `index`.
pub proof fn lemma_painted_points(cells: Seq<u8>, w: int, h: int, pts: Seq<(int, int)>, index: u8, k: int)
    requires
        cells.len() == w * h,
        0 <= w,
        0 <= h,
        0 <= k < pts.len(),
        0 <= pts[k].0 < w,
        0 <= pts[k].1 < h,
    ensures
        paint_cells(cells, w, h, pts, index, true)[pts[k].1 * w + pts[k].0] == index,
    decreases pts.len(),
{
    lemma_cell_index_any(w, h, pts[k].0, pts[k].1);
    lemma_paint_len(cells, w, h, pts.drop_last(), index, true);
    if k < pts.len() - 1 {
        lemma_painted_points(cells, w, h, pts.drop_last(), index, k);
        let (x, y) = pts.last();
        if 0 <= x < w && 0 <= y < h {
            lemma_cell_index_any(w, h, x, y);
        }
    }
}

pub proof fn lemma_cell_index_any(w: int, h: int, x: int, y: int)
    requires
        0 <= x < w,
        0 <= y < h,
    ensures
        0 <= y * w + x < w * h,
        0 <= y * w <= y * w + x,
{
    assert(0 <= y * w) by (nonlinear_arith)
        requires 0 <= y, 0 <= w;
    assert(y * w + x < w * h) by (nonlinear_arith)
        requires 0 <= x < w, 0 <= y < h;
}

/// A grid within the dimension cap with one cell per position is
/// indexable.
pub proof fn lemma_sized_indexable(p: PixelArt)
    requires
        p.sized(),
    ensures
        p.indexable(),
{
    assert(p.width * p.height <= 65536) by (nonlinear_arith)
        requires p.width <= 256, p.height <= 256;
}

/// Painting a stroke a second time changes nothing: every point of the
/// stroke already holds the colour.
pub proof fn law_repaint_is_noop(cells: Seq<u8>, w: int, h: int, pts: Seq<(int, int)>, index: u8, ok: bool)
    requires
        cells.len() == w * h,
        0 <= w,
        0 <= h,
    ensures
        paint_count(paint_cells(cells, w, h, pts, index, ok), w, h, pts, index, ok) == 0,
{
    let once = paint_cells(cells, w, h, pts, index, ok);
    lemma_paint_len(cells, w, h, pts, index, ok);
    lemma_repaint_prefix(cells, once, w, h, pts, pts.len() as int, index, ok);
    assert(pts.take(pts.len() as int) =~= pts);
}

proof fn lemma_repaint_prefix(cells: Seq<u8>, once: Seq<u8>, w: int, h: int, pts: Seq<(int, int)>, n: int, index: u8, ok: bool)
    requires
        cells.len() == w * h,
        0 <= w,
        0 <= h,
        0 <= n <= pts.len(),
        once == paint_cells(cells, w, h, pts, index, ok),
    ensures
        paint_cells(once, w, h, pts.take(n), index, ok) == once,
        paint_count(once, w, h, pts.take(n), index, ok) == 0,
    decreases n,
{
    if n > 0 {
        lemma_repaint_prefix(cells, once, w, h, pts, n - 1, index, ok);
        assert(pts.take(n).drop_last() =~= pts.take(n - 1));
        let (x, y) = pts[n - 1];
        lemma_paint_len(cells, w, h, pts, index, ok);
        if ok && 0 <= x < w && 0 <= y < h {
            lemma_painted_points(cells, w, h, pts, index, n - 1);
            lemma_cell_index_any(w, h, x, y);
            assert(once[y * w + x] == index);
            assert(once.update(y * w + x, index) =~= once);
        }
    }
}

impl PixelArt {
    /// Bresenham stroke between two cells (pencil drags); returns the
    /// number of cells changed.
    pub fn stroke_line(&mut self, x0: i32, y0: i32, x1: i32, y1: i32, index: u8) -> (r: usize)
        requires
            old(self).sized(),
        ensures
            final(self).width == old(self).width,
            final(self).height == old(self).height,
            final(self).palette == old(self).palette,
            final(self).cells@ == paint_cells(old(self).cells@, old(self).width as int, old(self).height as int,
                line_cells(x0 as int, y0 as int, x1 as int, y1 as int), index, old(self).paintable(index)),
            r == paint_count(old(self).cells@, old(self).width as int, old(self).height as int,
                line_cells(x0 as int, y0 as int, x1 as int, y1 as int), index, old(self).paintable(index)),
    {
        let ghost w = self.width as int;
        let ghost h = self.height as int;
        let ghost ok = self.paintable(index);
        let ghost cells0 = self.cells@;
        let dxs: i64 = x1 as i64 - x0 as i64;
        let dys: i64 = y1 as i64 - y0 as i64;
        let a: i64 = if dxs < 0 { -dxs } else { dxs };
        let b: i64 = if dys < 0 { -dys } else { dys };
        let sx: i32 = if x0 < x1 { 1 } else { -1 };
        let sy: i32 = if y0 < y1 { 1 } else { -1 };
        let mut x = x0;
        let mut y = y0;
        let mut err: i64 = a - b;
        let mut changed: usize = 0;
        let ghost mut xs: int = 0;
        let ghost mut ys: int = 0;
        let ghost mut visited: Seq<(int, int)> = Seq::empty();
        let ghost full = line_cells(x0 as int, y0 as int, x1 as int, y1 as int);
        let ghost mut fuel: nat = (a + b) as nat;
        proof {
            lemma_count_neq_bound(cells0, index);
            assert(visited + full =~= full);
            assert(w * h <= 65536) by (nonlinear_arith)
                requires 0 <= w <= 256, 0 <= h <= 256;
            assert(err == a * (1 + ys) - b * (1 + xs)) by (nonlinear_arith)
                requires err == a - b, xs == 0, ys == 0;
        }
        loop
            invariant_except_break
                visited + walk(x as int, y as int, err as int, x1 as int, y1 as int, a as int, b as int, sx as int, sy as int,
                    fuel) == full,
            invariant
                self.sized(),
                self.width == old(self).width,
                self.height == old(self).height,
                self.palette == old(self).palette,
                w == self.width,
                h == self.height,
                ok == self.paintable(index),
                cells0 == old(self).cells@,
                a == iabs(x1 - x0),
                b == iabs(y1 - y0),
                sx == line_dir(x0 as int, x1 as int),
                sy == line_dir(y0 as int, y1 as int),
                0 <= xs <= a,
                0 <= ys <= b,
                x == x0 + sx * xs,
                y == y0 + sy * ys,
                err == a * (1 + ys) - b * (1 + xs),
                -2 * b <= err <= 2 * a,
                a <= 0x1_0000_0000,
                b <= 0x1_0000_0000,
                fuel >= (a - xs) + (b - ys),
                self.cells@ == paint_cells(cells0, w, h, visited, index, ok),
                changed == paint_count(cells0, w, h, visited, index, ok),
                changed + count_neq(self.cells@, index) == count_neq(cells0, index),
                count_neq(cells0, index) <= cells0.len(),
                cells0.len() == w * h,
                w * h <= 65536,
            ensures
                visited == full,
                self.cells@ == paint_cells(cells0, w, h, visited, index, ok),
                changed == paint_count(cells0, w, h, visited, index, ok),
            decreases (a - xs) + (b - ys),
        {
            let ghost before = self.cells@;
            let did = self.set(x, y, index);
            proof {
                lemma_paint_len(cells0, w, h, visited, index, ok);
                if did {
                    lemma_cell_index_any(w, h, x as int, y as int);
                    lemma_count_neq_update(before, y * w + x, index);
                } else if ok && 0 <= x < w && 0 <= y < h {
                    lemma_cell_index_any(w, h, x as int, y as int);
                    assert(before.update(y * w + x, index) =~= before);
                }
                let vp = visited.push((x as int, y as int));
                assert(vp.drop_last() =~= visited);
                assert(walk(x as int, y as int, err as int, x1 as int, y1 as int, a as int, b as int, sx as int, sy as int, fuel)[0]
                    == (x as int, y as int));
            }
            if did {
                changed += 1;
            }
            let ghost rest = walk(x as int, y as int, err as int, x1 as int, y1 as int, a as int, b as int, sx as int, sy as int, fuel);
            proof {
                visited = visited.push((x as int, y as int));
            }
            if x == x1 && y == y1 {
                assert(rest =~= seq![(x as int, y as int)]);
                assert(visited =~= full);
                break;
            }
            // progress facts: no overshoot
            assert(xs < a || ys < b);
            let e2: i64 = 2 * err;
            proof {
                if xs == a && ys < b {
                    assert(2 * err < -b) by (nonlinear_arith)
                        requires err == a * (1 + ys) - b * (1 + xs), xs == a, 0 <= ys < b, 0 <= a;
                }
                if ys == b && xs < a {
                    assert(2 * err > a) by (nonlinear_arith)
                        requires err == a * (1 + ys) - b * (1 + xs), ys == b, 0 <= xs < a, 0 <= b;
                }
                assert(fuel > 0);
                assert(rest.drop_first() == walk(
                    if e2 >= -b { x + sx } else { x as int },
                    if e2 <= a { y + sy } else { y as int },
                    if e2 <= a { (if e2 >= -b { err - b } else { err as int }) + a } else { if e2 >= -b { err - b } else { err as int } },
                    x1 as int, y1 as int, a as int, b as int, sx as int, sy as int, (fuel - 1) as nat));
            }
            if e2 >= -b {
                err = err - b;
                x = x + sx;
                proof {
                    xs = xs + 1;
                    assert(err == a * (1 + ys) - b * (1 + xs)) by (nonlinear_arith)
                        requires err == a * (1 + ys) - b * (1 + (xs - 1)) - b;
                }
            }
            if e2 <= a {
                err = err + a;
                y = y + sy;
                proof {
                    ys = ys + 1;
                    assert(err == a * (1 + ys) - b * (1 + xs)) by (nonlinear_arith)
                        requires err == a * (1 + (ys - 1)) - b * (1 + xs) + a;
                }
            }
            proof {
                assert(visited.drop_last() + rest == full);
                assert(visited + rest.drop_first() =~= visited.drop_last() + rest);
                fuel = (fuel - 1) as nat;
            }
        }
        changed
    }
}


/// Number of cells equal to `v`.
pub open spec fn count_eq(cells: Seq<u8>, v: u8) -> nat
    decreases cells.len(),
{
    if cells.len() == 0 { 0 } else { count_eq(cells.drop_last(), v) + (if cells.last() == v { 1nat } else { 0nat }) }
}

pub proof fn lemma_count_eq_update(cells: Seq<u8>, k: int, v: u8, x: u8)
    requires
        0 <= k < cells.len(),
        cells[k] == v,
        x != v,
    ensures
        count_eq(cells.update(k, x), v) + 1 == count_eq(cells, v),
    decreases cells.len(),
{
    let u = cells.update(k, x);
    if k < cells.len() - 1 {
        lemma_count_eq_update(cells.drop_last(), k, v, x);
        assert(u.drop_last() =~= cells.drop_last().update(k, x));
    } else {
        assert(u.drop_last() =~= cells.drop_last());
    }
}

/// `after` differs from `before` only where a `target` cell became `index`.
pub open spec fn only_recolored(before: Seq<u8>, after: Seq<u8>, target: u8, index: u8) -> bool {
    &&& after.len() == before.len()
    &&& forall|k: int| 0 <= k < before.len() ==> #[trigger] after[k] == before[k] || (before[k] == target && after[k] == index)
}

impl PixelArt {
    fn fill_cell(&mut self, x: i32, y: i32, index: u8, target: u8)
        requires
            old(self).sized(),
            old(self).inside(x as int, y as int),
            old(self).cell(x as int, y as int) == target,
            index != target,
        ensures
            final(self).width == old(self).width,
            final(self).height == old(self).height,
            final(self).palette == old(self).palette,
            final(self).cells@ == old(self).cells@.update(y * old(self).width + x, index),
            count_eq(final(self).cells@, target) + 1 == count_eq(old(self).cells@, target),
    {
        proof {
            lemma_cell_index(self.width as int, self.height as int, x as int, y as int);
            lemma_count_eq_update(self.cells@, y * self.width + x, target, index);
        }
        let k = (y as u32 * self.width + x as u32) as usize;
        self.cells.set(k, index);
    }

    /// Pushes `(x, y)` if it is inside the grid and holds `target`.
    fn push_if_target(&self, stack: &mut Vec<(i32, i32)>, x: i32, y: i32, target: u8)
        requires
            self.sized(),
        ensures
            final(stack)@ == (if self.inside(x as int, y as int) && self.cell(x as int, y as int) == target {
                old(stack)@.push((x, y))
            } else {
                old(stack)@
            }),
    {
        proof { lemma_sized_indexable(*self); }
        if self.in_bounds(x, y) && self.get(x, y) == target {
            stack.push((x, y));
        }
    }

    /// Pushes the edge neighbours of `(x, y)` that hold `target`.
    fn push_neighbours(&self, stack: &mut Vec<(i32, i32)>, x: i32, y: i32, target: u8)
        requires
            self.sized(),
            self.inside(x as int, y as int),
        ensures
            final(stack)@.len() >= old(stack)@.len(),
            forall|i: int| 0 <= i < old(stack)@.len() ==> final(stack)@[i] == old(stack)@[i],
            forall|j: int| old(stack)@.len() <= j < final(stack)@.len() ==>
                adjacent(pos(#[trigger] final(stack)@[j]), (x as int, y as int))
                && self.inside(final(stack)@[j].0 as int, final(stack)@[j].1 as int)
                && self.cell(final(stack)@[j].0 as int, final(stack)@[j].1 as int) == target,
            self.inside(x - 1, y as int) && self.cell(x - 1, y as int) == target ==> final(stack)@.contains(((x - 1) as i32, y)),
            self.inside(x + 1, y as int) && self.cell(x + 1, y as int) == target ==> final(stack)@.contains(((x + 1) as i32, y)),
            self.inside(x as int, y - 1) && self.cell(x as int, y - 1) == target ==> final(stack)@.contains((x, (y - 1) as i32)),
            self.inside(x as int, y + 1) && self.cell(x as int, y + 1) == target ==> final(stack)@.contains((x, (y + 1) as i32)),
    {
        let ghost s0 = stack@;
        if x > 0 {
            self.push_if_target(stack, x - 1, y, target);
        }
        let ghost s1 = stack@;
        if x + 1 < self.width as i32 {
            self.push_if_target(stack, x + 1, y, target);
        }
        let ghost s2 = stack@;
        if y > 0 {
            self.push_if_target(stack, x, y - 1, target);
        }
        let ghost s3 = stack@;
        if y + 1 < self.height as i32 {
            self.push_if_target(stack, x, y + 1, target);
        }
        let ghost s4 = stack@;
        proof {
            assert(s0.len() <= s1.len() <= s2.len() <= s3.len() <= s4.len());
            assert forall|i: int| 0 <= i < s0.len() implies s4[i] == s0[i] by {
                assert(s1[i] == s0[i]);
                assert(s2[i] == s1[i]);
                assert(s3[i] == s2[i]);
            }
            if self.inside(x - 1, y as int) && self.cell(x - 1, y as int) == target {
                assert(s1[s0.len() as int] == ((x - 1) as i32, y));
                assert(s4[s0.len() as int] == s1[s0.len() as int]);
            }
            if self.inside(x + 1, y as int) && self.cell(x + 1, y as int) == target {
                assert(s2[s1.len() as int] == ((x + 1) as i32, y));
                assert(s4[s1.len() as int] == s2[s1.len() as int]);
            }
            if self.inside(x as int, y - 1) && self.cell(x as int, y - 1) == target {
                assert(s3[s2.len() as int] == (x, (y - 1) as i32));
                assert(s4[s2.len() as int] == s3[s2.len() as int]);
            }
            if self.inside(x as int, y + 1) && self.cell(x as int, y + 1) == target {
                assert(s4[s3.len() as int] == (x, (y + 1) as i32));
            }
        }
    }

    /// Flood fill the 4-connected region of the seed cell's value with
    /// `index`. Returns the number of cells changed: 0 when the seed is
    /// outside, `index` is not paintable or the seed already holds `index`.
    pub fn flood_fill(&mut self, sx: i32, sy: i32, index: u8) -> (r: usize)
        requires
            old(self).sized(),
        ensures
            final(self).width == old(self).width,
            final(self).height == old(self).height,
            final(self).palette == old(self).palette,
            (!old(self).inside(sx as int, sy as int) || !old(self).paintable(index)
                || old(self).cell(sx as int, sy as int) == index) ==> r == 0 && final(self).cells@ == old(self).cells@,
            (old(self).inside(sx as int, sy as int) && old(self).paintable(index)
                && old(self).cell(sx as int, sy as int) != index) ==> {
                &&& final(self).cells@.len() == old(self).cells@.len()
                &&& forall|x: int, y: int| old(self).inside(x, y) ==> #[trigger] final(self).cell(x, y) == (
                    if connected(old(self).cells@, old(self).width as int, old(self).height as int,
                        old(self).cell(sx as int, sy as int), (sx as int, sy as int), (x, y)) {
                        index
                    } else {
                        old(self).cell(x, y)
                    })
                &&& r + count_eq(final(self).cells@, old(self).cell(sx as int, sy as int))
                    == count_eq(old(self).cells@, old(self).cell(sx as int, sy as int))
            },
    {
        if !self.in_bounds(sx, sy) {
            return 0;
        }
        if index != TRANSPARENT && (index as usize) >= self.palette.len() {
            return 0;
        }
        proof { lemma_sized_indexable(*self); }
        let target = self.get(sx, sy);
        if target == index {
            return 0;
        }
        let w = self.width as i32;
        let h = self.height as i32;
        let ghost wi = w as int;
        let ghost hi = h as int;
        let ghost seed = (sx as int, sy as int);
        let ghost cells0 = self.cells@;
        let mut changed: usize = 0;
        let mut stack: Vec<(i32, i32)> = Vec::new();
        stack.push((sx, sy));
        proof {
            lemma_count_eq_bound(cells0, target);
            assert(self.width * self.height <= 65536) by (nonlinear_arith)
                requires self.width <= 256, self.height <= 256;
            lemma_cell_index(wi, hi, sx as int, sy as int);
            assert(is_path(cells0, wi, hi, target, seq![seed]));
            assert(seq![seed].last() == seed);
            assert(stack@[0] == (sx, sy));
        }
        loop
            invariant
                self.sized(),
                self.width == old(self).width,
                self.height == old(self).height,
                self.palette == old(self).palette,
                w == self.width,
                h == self.height,
                wi == w,
                hi == h,
                seed == (sx as int, sy as int),
                cells0 == old(self).cells@,
                cells0.len() == wi * hi,
                wi * hi <= 65536,
                in_grid(wi, hi, seed),
                target == grid_at(cells0, wi, sx as int, sy as int),
                target != index,
                only_recolored(cells0, self.cells@, target, index),
                changed + count_eq(self.cells@, target) == count_eq(cells0, target),
                count_eq(cells0, target) <= cells0.len(),
                pending(self.cells@, wi, hi, target, stack@, seed),
                forall|x: int, y: int| in_grid(wi, hi, (x, y)) && #[trigger] changed_at(cells0, self.cells@, wi, x, y) ==>
                    settled(self.cells@, wi, hi, target, stack@, x, y)
                    && connected(cells0, wi, hi, target, seed, (x, y)),
                forall|j: int| 0 <= j < stack@.len() ==> in_grid(wi, hi, pos(#[trigger] stack@[j]))
                    && (grid_at(self.cells@, wi, stack@[j].0 as int, stack@[j].1 as int) == target
                        ==> connected(cells0, wi, hi, target, seed, pos(stack@[j]))),
            ensures
                stack@.len() == 0,
                only_recolored(cells0, self.cells@, target, index),
                changed + count_eq(self.cells@, target) == count_eq(cells0, target),
                pending(self.cells@, wi, hi, target, stack@, seed),
                forall|x: int, y: int| in_grid(wi, hi, (x, y)) && #[trigger] changed_at(cells0, self.cells@, wi, x, y) ==>
                    settled(self.cells@, wi, hi, target, stack@, x, y)
                    && connected(cells0, wi, hi, target, seed, (x, y)),
                self.sized(),
                self.width == old(self).width,
                self.height == old(self).height,
                self.palette == old(self).palette,
            decreases count_eq(self.cells@, target), stack@.len(),
        {
            let ghost stack_before = stack@;
            let ghost cur = self.cells@;
            let top = stack.pop();
            let (x, y) = match top {
                Some(p) => p,
                None => {
                    break;
                },
            };
            proof {
                assert(stack_before == stack@.push((x, y)));
                assert(stack_before[stack_before.len() - 1] == (x, y));
                lemma_pop_keeps(stack_before, stack@, (x, y));
            }
            if !self.in_bounds(x, y) || self.get(x, y) != target {
                proof {
                    lemma_cell_index(wi, hi, x as int, y as int);
                    assert forall|px: int, py: int| in_grid(wi, hi, (px, py)) && #[trigger] changed_at(cells0, cur, wi, px, py) implies
                        settled(cur, wi, hi, target, stack@, px, py) by {
                        assert(settled(cur, wi, hi, target, stack_before, px, py));
                    }
                    assert forall|j: int| 0 <= j < stack@.len() implies in_grid(wi, hi, pos(#[trigger] stack@[j]))
                        && (grid_at(cur, wi, stack@[j].0 as int, stack@[j].1 as int) == target
                            ==> connected(cells0, wi, hi, target, seed, pos(stack@[j]))) by {
                        assert(stack@[j] == stack_before[j]);
                    }
                }
                continue;
            }
            let ghost k = y * wi + x;
            proof {
                lemma_cell_index(wi, hi, x as int, y as int);
                assert(stack_before[stack_before.len() - 1] == (x, y));
                assert(grid_at(cur, wi, x as int, y as int) == target);
            }
            self.fill_cell(x, y, index, target);
            changed += 1;
            let ghost mid = self.cells@;
            let ghost base = stack@;
            self.push_neighbours(&mut stack, x, y, target);
            proof {
                let st = stack@;
                assert(mid == cur.update(k, index));
                assert forall|e: (i32, i32)| base.contains(e) implies st.contains(e) by {
                    let i = choose|i: int| 0 <= i < base.len() && base[i] == e;
                    assert(st[i] == e);
                }
                assert forall|j: int| 0 <= j < st.len() implies base.contains(#[trigger] st[j]) || (adjacent(pos(st[j]), (x as int, y as int))
                    && in_grid(wi, hi, pos(st[j])) && grid_at(mid, wi, st[j].0 as int, st[j].1 as int) == target) by {
                    if j < base.len() {
                        assert(base[j] == st[j]);
                    } else {
                        lemma_cell_index(wi, hi, st[j].0 as int, st[j].1 as int);
                    }
                }
                assert(settled(mid, wi, hi, target, st, x as int, y as int)) by {
                    if x > 0 { lemma_cell_index(wi, hi, x - 1, y as int); }
                    if x + 1 < w { lemma_cell_index(wi, hi, x + 1, y as int); }
                    if y > 0 { lemma_cell_index(wi, hi, x as int, y - 1); }
                    if y + 1 < h { lemma_cell_index(wi, hi, x as int, y + 1); }
                }
                lemma_after_fill(cells0, cur, mid, wi, hi, target, index, stack_before, base, st, x, y, seed);
            }
        }
        proof {
            let cur = self.cells@;
            assert forall|x: int, y: int| old(self).inside(x, y) implies #[trigger] self.cell(x, y) == (
                if connected(cells0, wi, hi, target, seed, (x, y)) { index } else { old(self).cell(x, y) }) by {
                lemma_cell_index(wi, hi, x, y);
                let kk = y * wi + x;
                assert(self.cell(x, y) == cur[kk]);
                assert(old(self).cell(x, y) == cells0[kk]);
                if connected(cells0, wi, hi, target, seed, (x, y)) {
                    let p = choose|p: Seq<(int, int)>| is_path(cells0, wi, hi, target, p) && p[0] == seed && p.last() == (x, y);
                    assert(changed_at(cells0, cur, wi, seed.0, seed.1)) by {
                        lemma_cell_index(wi, hi, seed.0, seed.1);
                        assert(!(in_grid(wi, hi, seed) && grid_at(cur, wi, seed.0, seed.1) == target
                            && !stack@.contains((sx, sy))));
                    }
                    lemma_path_filled(cells0, cur, wi, hi, target, stack@, p, p.len() - 1);
                    assert(cur[kk] == index);
                } else {
                    if changed_at(cells0, cur, wi, x, y) {
                        assert(false);
                    }
                }
            }
        }
        changed
    }
}

/// Board coordinates of a stack entry.
pub open spec fn pos(p: (i32, i32)) -> (int, int) {
    (p.0 as int, p.1 as int)
}

pub open spec fn in_grid(w: int, h: int, p: (int, int)) -> bool {
    0 <= p.0 < w && 0 <= p.1 < h
}

/// Edge neighbours on the grid.
pub open spec fn adjacent(a: (int, int), b: (int, int)) -> bool {
    (a.0 == b.0 && (a.1 == b.1 + 1 || a.1 + 1 == b.1)) || (a.1 == b.1 && (a.0 == b.0 + 1 || a.0 + 1 == b.0))
}

/// Consecutive entries of `p` at `i` and `i + 1` are neighbours.
pub open spec fn step_at(p: Seq<(int, int)>, i: int) -> bool {
    adjacent(p[i], p[i + 1])
}

/// The entry of `p` at `i` is on the grid and holds `v`.
pub open spec fn holds_at(cells: Seq<u8>, w: int, h: int, v: u8, p: Seq<(int, int)>, i: int) -> bool {
    in_grid(w, h, p[i]) && grid_at(cells, w, p[i].0, p[i].1) == v
}

/// A non-empty walk between edge neighbours over cells holding `v`.
pub open spec fn is_path(cells: Seq<u8>, w: int, h: int, v: u8, p: Seq<(int, int)>) -> bool {
    &&& p.len() > 0
    &&& forall|i: int| 0 <= i < p.len() ==> #[trigger] holds_at(cells, w, h, v, p, i)
    &&& forall|i: int| 0 <= i < p.len() - 1 ==> #[trigger] step_at(p, i)
}

/// `b` can be reached from `a` by edge steps over cells holding `v`.
pub open spec fn connected(cells: Seq<u8>, w: int, h: int, v: u8, a: (int, int), b: (int, int)) -> bool {
    exists|p: Seq<(int, int)>| is_path(cells, w, h, v, p) && p[0] == a && p.last() == b
}

/// The cell at `(x, y)` differs between the two grids.
pub open spec fn changed_at(before: Seq<u8>, after: Seq<u8>, w: int, x: int, y: int) -> bool {
    grid_at(before, w, x, y) != grid_at(after, w, x, y)
}

/// If the cell `p` still holds `target`, it waits on the stack.
pub open spec fn pending(cur: Seq<u8>, w: int, h: int, target: u8, stack: Seq<(i32, i32)>, p: (int, int)) -> bool {
    in_grid(w, h, p) && grid_at(cur, w, p.0, p.1) == target ==> stack.contains((p.0 as i32, p.1 as i32))
}

/// Every neighbour of `(x, y)` that still holds `target` waits on the stack.
pub open spec fn settled(cur: Seq<u8>, w: int, h: int, target: u8, stack: Seq<(i32, i32)>, x: int, y: int) -> bool {
    &&& pending(cur, w, h, target, stack, (x - 1, y))
    &&& pending(cur, w, h, target, stack, (x + 1, y))
    &&& pending(cur, w, h, target, stack, (x, y - 1))
    &&& pending(cur, w, h, target, stack, (x, y + 1))
}

pub proof fn lemma_pop_keeps(before: Seq<(i32, i32)>, after: Seq<(i32, i32)>, top: (i32, i32))
    requires
        before == after.push(top),
    ensures
        forall|e: (i32, i32)| before.contains(e) && e != top ==> after.contains(e),
{
    assert forall|e: (i32, i32)| before.contains(e) && e != top implies after.contains(e) by {
        let i = choose|i: int| 0 <= i < before.len() && before[i] == e;
        assert(i < after.len());
        assert(after[i] == e);
    }
}

pub proof fn lemma_index_distinct(w: int, h: int, x1: int, y1: int, x2: int, y2: int)
    requires
        in_grid(w, h, (x1, y1)),
        in_grid(w, h, (x2, y2)),
        (x1, y1) != (x2, y2),
    ensures
        y1 * w + x1 != y2 * w + x2,
{
    if y1 < y2 {
        assert(y1 * w + x1 < y2 * w + x2) by (nonlinear_arith)
            requires 0 <= x1 < w, 0 <= x2, y1 < y2;
    } else if y2 < y1 {
        assert(y2 * w + x2 < y1 * w + x1) by (nonlinear_arith)
            requires 0 <= x2 < w, 0 <= x1, y2 < y1;
    }
}

/// Extending a walk by one more neighbour holding the same value.
pub proof fn lemma_extend(cells: Seq<u8>, w: int, h: int, v: u8, a: (int, int), b: (int, int), c: (int, int))
    requires
        connected(cells, w, h, v, a, b),
        adjacent(b, c),
        in_grid(w, h, c),
        grid_at(cells, w, c.0, c.1) == v,
    ensures
        connected(cells, w, h, v, a, c),
{
    let p = choose|p: Seq<(int, int)>| is_path(cells, w, h, v, p) && p[0] == a && p.last() == b;
    let q = p.push(c);
    assert forall|i: int| 0 <= i < q.len() implies #[trigger] holds_at(cells, w, h, v, q, i) by {
        if i < p.len() {
            assert(holds_at(cells, w, h, v, p, i));
        }
    }
    assert forall|i: int| 0 <= i < q.len() - 1 implies #[trigger] step_at(q, i) by {
        if i < p.len() - 1 {
            assert(step_at(p, i));
        }
    }
    assert(is_path(cells, w, h, v, q) && q[0] == a && q.last() == c);
}

/// Along a walk over `target` cells that starts at a recoloured cell, when
/// no neighbour of a recoloured cell still holds `target`, every cell of
/// the walk is recoloured.
pub proof fn lemma_path_filled(c0: Seq<u8>, cur: Seq<u8>, w: int, h: int, target: u8, st: Seq<(i32, i32)>,
    p: Seq<(int, int)>, n: int)
    requires
        is_path(c0, w, h, target, p),
        0 <= n < p.len(),
        st.len() == 0,
        changed_at(c0, cur, w, p[0].0, p[0].1),
        forall|x: int, y: int| in_grid(w, h, (x, y)) && #[trigger] changed_at(c0, cur, w, x, y) ==>
            settled(cur, w, h, target, st, x, y),
    ensures
        changed_at(c0, cur, w, p[n].0, p[n].1),
    decreases n,
{
    if n > 0 {
        lemma_path_filled(c0, cur, w, h, target, st, p, n - 1);
        let a = p[n - 1];
        let b = p[n];
        assert(holds_at(c0, w, h, target, p, n - 1));
        assert(holds_at(c0, w, h, target, p, n));
        assert(step_at(p, n - 1));
        assert(changed_at(c0, cur, w, a.0, a.1));
        assert(settled(cur, w, h, target, st, a.0, a.1));
        if b == (a.0 - 1, a.1) {
            assert(pending(cur, w, h, target, st, b));
        } else if b == (a.0 + 1, a.1) {
            assert(pending(cur, w, h, target, st, b));
        } else if b == (a.0, a.1 - 1) {
            assert(pending(cur, w, h, target, st, b));
        } else {
            assert(b == (a.0, a.1 + 1));
            assert(pending(cur, w, h, target, st, b));
        }
    }
}

/// What filling the popped cell `(x, y)` and pushing its `target`
/// neighbours does to the loop's invariants.
pub proof fn lemma_after_fill(cells0: Seq<u8>, cur: Seq<u8>, mid: Seq<u8>, w: int, h: int, target: u8, index: u8,
    sb: Seq<(i32, i32)>, base: Seq<(i32, i32)>, st: Seq<(i32, i32)>, x: i32, y: i32, seed: (int, int))
    requires
        in_grid(w, h, (x as int, y as int)),
        w <= 256,
        h <= 256,
        cells0.len() == w * h,
        cur.len() == w * h,
        target != index,
        grid_at(cur, w, x as int, y as int) == target,
        mid == cur.update(y * w + x, index),
        only_recolored(cells0, cur, target, index),
        sb == base.push((x, y)),
        forall|px: int, py: int| in_grid(w, h, (px, py)) && #[trigger] changed_at(cells0, cur, w, px, py) ==>
            settled(cur, w, h, target, sb, px, py) && connected(cells0, w, h, target, seed, (px, py)),
        pending(cur, w, h, target, sb, seed),
        forall|j: int| 0 <= j < sb.len() ==> in_grid(w, h, pos(#[trigger] sb[j]))
            && (grid_at(cur, w, sb[j].0 as int, sb[j].1 as int) == target ==> connected(cells0, w, h, target, seed, pos(sb[j]))),
        forall|e: (i32, i32)| base.contains(e) ==> st.contains(e),
        forall|j: int| 0 <= j < st.len() ==> base.contains(#[trigger] st[j]) || (adjacent(pos(st[j]), (x as int, y as int))
            && in_grid(w, h, pos(st[j])) && grid_at(mid, w, st[j].0 as int, st[j].1 as int) == target),
        settled(mid, w, h, target, st, x as int, y as int),
    ensures
        only_recolored(cells0, mid, target, index),
        pending(mid, w, h, target, st, seed),
        forall|px: int, py: int| in_grid(w, h, (px, py)) && #[trigger] changed_at(cells0, mid, w, px, py) ==>
            settled(mid, w, h, target, st, px, py) && connected(cells0, w, h, target, seed, (px, py)),
        forall|j: int| 0 <= j < st.len() ==> in_grid(w, h, pos(#[trigger] st[j]))
            && (grid_at(mid, w, st[j].0 as int, st[j].1 as int) == target ==> connected(cells0, w, h, target, seed, pos(st[j]))),
{
    let k = y * w + x;
    lemma_cell_index(w, h, x as int, y as int);
    // The popped cell is connected to the seed.
    assert(sb[sb.len() - 1] == (x, y));
    assert(connected(cells0, w, h, target, seed, (x as int, y as int)));
    // Recolouring.
    assert forall|i: int| 0 <= i < cells0.len() implies #[trigger] mid[i] == cells0[i]
        || (cells0[i] == target && mid[i] == index) by {
        if i == k {
            assert(cur[i] == target);
        }
    }
    // Only (x, y) differs between cur and mid.
    assert forall|q: (int, int)| in_grid(w, h, q) && q != (x as int, y as int) implies
        #[trigger] grid_at(mid, w, q.0, q.1) == grid_at(cur, w, q.0, q.1) by {
        lemma_index_distinct(w, h, q.0, q.1, x as int, y as int);
        lemma_cell_index(w, h, q.0, q.1);
    }
    assert(grid_at(mid, w, x as int, y as int) == index);
    // Pending cells of cur stay pending in mid.
    assert forall|q: (int, int)| pending(cur, w, h, target, sb, q) implies #[trigger] pending(mid, w, h, target, st, q) by {
        if in_grid(w, h, q) && grid_at(mid, w, q.0, q.1) == target {
            assert(q != (x as int, y as int));
            assert(grid_at(cur, w, q.0, q.1) == target);
            let e = (q.0 as i32, q.1 as i32);
            assert(e != (x, y));
            lemma_pop_keeps(sb, base, (x, y));
            assert(base.contains(e));
        }
    }
    assert(pending(mid, w, h, target, st, seed));
    assert forall|px: int, py: int| in_grid(w, h, (px, py)) && #[trigger] changed_at(cells0, mid, w, px, py) implies
        settled(mid, w, h, target, st, px, py) && connected(cells0, w, h, target, seed, (px, py)) by {
        if (px, py) != (x as int, y as int) {
            assert(grid_at(mid, w, px, py) == grid_at(cur, w, px, py));
            assert(changed_at(cells0, cur, w, px, py));
            assert(settled(cur, w, h, target, sb, px, py));
            assert(pending(mid, w, h, target, st, (px - 1, py)));
            assert(pending(mid, w, h, target, st, (px + 1, py)));
            assert(pending(mid, w, h, target, st, (px, py - 1)));
            assert(pending(mid, w, h, target, st, (px, py + 1)));
        }
    }
    assert forall|j: int| 0 <= j < st.len() implies in_grid(w, h, pos(#[trigger] st[j]))
        && (grid_at(mid, w, st[j].0 as int, st[j].1 as int) == target ==> connected(cells0, w, h, target, seed, pos(st[j]))) by {
        let e = st[j];
        if base.contains(e) {
            let i = choose|i: int| 0 <= i < base.len() && base[i] == e;
            assert(sb[i] == e);
            assert(in_grid(w, h, pos(sb[i])));
            if grid_at(mid, w, e.0 as int, e.1 as int) == target {
                assert(pos(e) != (x as int, y as int));
                assert(grid_at(cur, w, e.0 as int, e.1 as int) == target);
            }
        } else {
            if grid_at(mid, w, e.0 as int, e.1 as int) == target {
                lemma_cell_index(w, h, e.0 as int, e.1 as int);
                let ke = e.1 * w + e.0;
                assert(mid[ke] == target);
                assert(cells0[ke] == target);
                lemma_extend(cells0, w, h, target, seed, (x as int, y as int), pos(e));
            }
        }
    }
}

/// The cell at column `x`, row `y` of a row-major grid of width `w`.
pub open spec fn grid_at(cells: Seq<u8>, w: int, x: int, y: int) -> u8 {
    cells[y * w + x]
}

pub proof fn lemma_count_eq_bound(cells: Seq<u8>, v: u8)
    ensures
        count_eq(cells, v) <= cells.len(),
    decreases cells.len(),
{
    if cells.len() > 0 {
        lemma_count_eq_bound(cells.drop_last(), v);
    }
}

} // verus!

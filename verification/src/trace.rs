//! Tracing a grayscale bitmap into contours with marching squares.
//! Points are in doubled grid coordinates, so that the midpoints of cell
//! edges are whole numbers. Scaling the contours to the page and
//! simplifying them (floating point) is the caller's part.
use vstd::prelude::*;

verus! {

/// A point in doubled grid coordinates.
pub type GridPoint = (usize, usize);

/// A contour segment, oriented from its first point to its second.
pub type GridSegment = (GridPoint, GridPoint);

/// Whether the pixel at `(x, y)` is at or above the threshold.
pub open spec fn ink(width: nat, pixels: Seq<u8>, threshold: u8, x: nat, y: nat) -> bool {
    pixels[(y * width + x) as int] >= threshold
}

/// The marching-squares case of the cell whose top-left pixel is
/// `(x, y)`: top-left, top-right, bottom-right and bottom-left ink as
/// bits 0 to 3.
pub open spec fn cell_case(width: nat, pixels: Seq<u8>, threshold: u8, x: nat, y: nat) -> nat {
    (if ink(width, pixels, threshold, x, y) { 1nat } else { 0 })
        + (if ink(width, pixels, threshold, x + 1, y) { 2nat } else { 0 })
        + (if ink(width, pixels, threshold, x + 1, y + 1) { 4nat } else { 0 })
        + (if ink(width, pixels, threshold, x, y + 1) { 8nat } else { 0 })
}

/// The segments of a cell with the given case; `(cx, cy)` is its doubled
/// top-left corner, and the segments join the midpoints of its edges.
pub open spec fn case_segments(case: nat, cx: usize, cy: usize) -> Seq<GridSegment> {
    let top = ((cx + 1) as usize, cy);
    let right = ((cx + 2) as usize, (cy + 1) as usize);
    let bottom = ((cx + 1) as usize, (cy + 2) as usize);
    let left = (cx, (cy + 1) as usize);
    if case == 1 { seq![(left, top)] }
    else if case == 2 { seq![(top, right)] }
    else if case == 3 { seq![(left, right)] }
    else if case == 4 { seq![(right, bottom)] }
    else if case == 5 { seq![(left, top), (right, bottom)] }
    else if case == 6 { seq![(top, bottom)] }
    else if case == 7 { seq![(left, bottom)] }
    else if case == 8 { seq![(bottom, left)] }
    else if case == 9 { seq![(bottom, top)] }
    else if case == 10 { seq![(top, right), (bottom, left)] }
    else if case == 11 { seq![(bottom, right)] }
    else if case == 12 { seq![(right, left)] }
    else if case == 13 { seq![(right, top)] }
    else if case == 14 { seq![(top, left)] }
    else { Seq::empty() }
}

/// The segments of the first `n` cells of row `y`.
pub open spec fn row_segments(width: nat, pixels: Seq<u8>, threshold: u8, y: nat, n: nat) -> Seq<GridSegment>
    decreases n,
{
    if n == 0 {
        Seq::empty()
    } else {
        let x = (n - 1) as nat;
        row_segments(width, pixels, threshold, y, x)
            + case_segments(cell_case(width, pixels, threshold, x, y), (2 * x) as usize, (2 * y) as usize)
    }
}

/// The segments of the first `rows` rows of cells, row by row.
pub open spec fn grid_segments(width: nat, pixels: Seq<u8>, threshold: u8, rows: nat) -> Seq<GridSegment>
    decreases rows,
{
    if rows == 0 {
        Seq::empty()
    } else {
        grid_segments(width, pixels, threshold, (rows - 1) as nat)
            + row_segments(width, pixels, threshold, (rows - 1) as nat, (width - 1) as nat)
    }
}

/// All contour segments of a bitmap, cell by cell in row order; none when
/// it is narrower or lower than two pixels or has fewer pixels than
/// `width * height`.
pub open spec fn traced_segments(width: nat, height: nat, pixels: Seq<u8>, threshold: u8) -> Seq<GridSegment> {
    if width < 2 || height < 2 || pixels.len() < width * height {
        Seq::empty()
    } else {
        grid_segments(width, pixels, threshold, (height - 1) as nat)
    }
}

proof fn lemma_index_in_grid(width: nat, height: nat, x: nat, y: nat)
    requires
        x < width,
        y < height,
    ensures
        y * width + x < width * height,
{
    assert(y * width + x < width * height) by (nonlinear_arith)
        requires x < width, y < height;
}

fn cell_segments_exec(out: &mut Vec<GridSegment>, width: usize, height: usize, pixels: &[u8], threshold: u8, x: usize, y: usize)
    requires
        x + 1 < width,
        y + 1 < height,
        width * height <= pixels@.len(),
        width * height <= usize::MAX,
        2 * width <= usize::MAX,
        2 * height <= usize::MAX,
    ensures
        final(out)@ == old(out)@ + case_segments(cell_case(width as nat, pixels@, threshold, x as nat, y as nat),
            (2 * x) as usize, (2 * y) as usize),
{
    proof {
        lemma_index_in_grid(width as nat, height as nat, (x + 1) as nat, (y + 1) as nat);
        assert((y + 1) * width == y * width + width) by (nonlinear_arith);
    }
    let tl = pixels[y * width + x] >= threshold;
    let tr = pixels[y * width + x + 1] >= threshold;
    let br = pixels[(y + 1) * width + x + 1] >= threshold;
    let bl = pixels[(y + 1) * width + x] >= threshold;
    let case: usize = (if tl { 1 } else { 0 }) + (if tr { 2 } else { 0 }) + (if br { 4 } else { 0 }) + (if bl { 8 } else { 0 });
    proof {
        assert(((x + 1) as nat + y * width) == (y * width + x + 1));
        assert(ink(width as nat, pixels@, threshold, (x + 1) as nat, y as nat) == tr);
        assert(ink(width as nat, pixels@, threshold, (x + 1) as nat, (y + 1) as nat) == br);
        assert(ink(width as nat, pixels@, threshold, x as nat, (y + 1) as nat) == bl);
    }
    let cx = 2 * x;
    let cy = 2 * y;
    let top = (cx + 1, cy);
    let right = (cx + 2, cy + 1);
    let bottom = (cx + 1, cy + 2);
    let left = (cx, cy + 1);
    if case == 1 { out.push((left, top)); }
    else if case == 2 { out.push((top, right)); }
    else if case == 3 { out.push((left, right)); }
    else if case == 4 { out.push((right, bottom)); }
    else if case == 5 { out.push((left, top)); out.push((right, bottom)); }
    else if case == 6 { out.push((top, bottom)); }
    else if case == 7 { out.push((left, bottom)); }
    else if case == 8 { out.push((bottom, left)); }
    else if case == 9 { out.push((bottom, top)); }
    else if case == 10 { out.push((top, right)); out.push((bottom, left)); }
    else if case == 11 { out.push((bottom, right)); }
    else if case == 12 { out.push((right, left)); }
    else if case == 13 { out.push((right, top)); }
    else if case == 14 { out.push((top, left)); }
    assert(final(out)@ =~= old(out)@ + case_segments(case as nat, cx, cy));
}

/// The contour segments of a `width` x `height` bitmap of gray levels
/// (row-major `pixels`): for each cell of four neighbouring pixels, in row
/// order, the marching-squares segments between the midpoints of its
/// edges, pixels at or above `threshold` being inside.
pub fn marching_segments(width: usize, height: usize, pixels: &[u8], threshold: u8) -> (r: Vec<GridSegment>)
    ensures
        r@ == traced_segments(width as nat, height as nat, pixels@, threshold),
{
    let mut out: Vec<GridSegment> = Vec::new();
    let plen = pixels.len();
    if width < 2 || height < 2 {
        return out;
    }
    let total = match width.checked_mul(height) {
        Some(t) => t,
        None => {
            proof {
                assert(pixels@.len() < width * height);
            }
            return out;
        },
    };
    if plen < total {
        return out;
    }
    proof {
        assert(2 * width <= width * height) by (nonlinear_arith)
            requires height >= 2;
        assert(2 * height <= width * height) by (nonlinear_arith)
            requires width >= 2;
    }
    let mut y: usize = 0;
    while y < height - 1
        invariant
            2 <= width,
            2 <= height,
            width * height <= pixels@.len(),
            width * height <= usize::MAX,
            2 * width <= usize::MAX,
            2 * height <= usize::MAX,
            y <= height - 1,
            out@ == grid_segments(width as nat, pixels@, threshold, y as nat),
        decreases height - 1 - y,
    {
        let ghost rows_before = out@;
        let mut x: usize = 0;
        while x < width - 1
            invariant
                2 <= width,
                2 <= height,
                width * height <= pixels@.len(),
                width * height <= usize::MAX,
                2 * width <= usize::MAX,
                2 * height <= usize::MAX,
                y < height - 1,
                x <= width - 1,
                out@ == rows_before + row_segments(width as nat, pixels@, threshold, y as nat, x as nat),
            decreases width - 1 - x,
        {
            cell_segments_exec(&mut out, width, height, pixels, threshold, x, y);
            assert(out@ =~= rows_before + row_segments(width as nat, pixels@, threshold, y as nat, (x + 1) as nat));
            x += 1;
        }
        y += 1;
    }
    out
}

/// The end of the last segment that starts at `p` (a later segment from
/// the same point replaces an earlier one).
pub open spec fn next_of(segs: Seq<GridSegment>, p: GridPoint) -> Option<GridPoint>
    decreases segs.len(),
{
    if segs.len() == 0 {
        None
    } else if segs.last().0 == p {
        Some(segs.last().1)
    } else {
        next_of(segs.drop_last(), p)
    }
}

/// How many segments start at a visited point.
pub open spec fn covered(segs: Seq<GridSegment>, vis: Seq<GridPoint>) -> nat
    decreases segs.len(),
{
    if segs.len() == 0 {
        0
    } else {
        covered(segs.drop_last(), vis) + if vis.contains(segs.last().0) { 1nat } else { 0nat }
    }
}

pub proof fn lemma_covered_bound(segs: Seq<GridSegment>, vis: Seq<GridPoint>)
    ensures
        covered(segs, vis) <= segs.len(),
    decreases segs.len(),
{
    if segs.len() > 0 {
        lemma_covered_bound(segs.drop_last(), vis);
    }
}

pub proof fn lemma_covered_grows(segs: Seq<GridSegment>, vis: Seq<GridPoint>, p: GridPoint)
    requires
        !vis.contains(p),
    ensures
        covered(segs, vis.push(p)) >= covered(segs, vis),
        next_of(segs, p) is Some ==> covered(segs, vis.push(p)) >= covered(segs, vis) + 1,
    decreases segs.len(),
{
    if segs.len() > 0 {
        lemma_covered_grows(segs.drop_last(), vis, p);
        let q = segs.last().0;
        if vis.contains(q) {
            assert(vis.push(p).contains(q)) by {
                let k = choose|k: int| 0 <= k < vis.len() && vis[k] == q;
                assert(vis.push(p)[k] == q);
            }
        }
        if q == p {
            assert(vis.push(p)[vis.len() as int] == p);
        }
    }
}

/// Following the segments from `cur`: each step records the current point
/// and marks it visited; the walk stops where no segment starts, or when
/// it reaches `start` or a visited point. Gives the recorded points and
/// the visited points afterwards.
pub open spec fn walk(segs: Seq<GridSegment>, start: GridPoint, vis: Seq<GridPoint>, cur: GridPoint) -> (Seq<GridPoint>, Seq<GridPoint>)
    decreases segs.len() - covered(segs, vis),
{
    if vis.contains(cur) {
        (Seq::empty(), vis)
    } else {
        match next_of(segs, cur) {
            None => (Seq::empty(), vis),
            Some(n) => {
                let v2 = vis.push(cur);
                if n == start || v2.contains(n) {
                    (seq![cur], v2)
                } else {
                    proof {
                        lemma_covered_grows(segs, vis, cur);
                        lemma_covered_bound(segs, v2);
                    }
                    let rest = walk(segs, start, v2, n);
                    (seq![cur] + rest.0, rest.1)
                }
            },
        }
    }
}

/// Linking segments into contours: from each start point in turn that is
/// not yet visited, a walk; walks of four points or more are kept. Gives
/// the contours and the visited points.
pub open spec fn link(segs: Seq<GridSegment>, starts: Seq<GridPoint>) -> (Seq<Seq<GridPoint>>, Seq<GridPoint>)
    decreases starts.len(),
{
    if starts.len() == 0 {
        (Seq::empty(), Seq::empty())
    } else {
        let prev = link(segs, starts.drop_last());
        let s = starts.last();
        if prev.1.contains(s) {
            prev
        } else {
            let w = walk(segs, s, prev.1, s);
            (if w.0.len() >= 4 { prev.0.push(w.0) } else { prev.0 }, w.1)
        }
    }
}

fn same_point(a: GridPoint, b: GridPoint) -> (r: bool)
    ensures
        r == (a == b),
{
    a.0 == b.0 && a.1 == b.1
}

fn find_next(segs: &Vec<GridSegment>, p: GridPoint) -> (r: Option<GridPoint>)
    ensures
        r == next_of(segs@, p),
{
    let mut k = segs.len();
    assert(segs@.take(k as int) =~= segs@);
    while k > 0
        invariant
            k <= segs@.len(),
            next_of(segs@, p) == next_of(segs@.take(k as int), p),
        decreases k,
    {
        let ghost pre = segs@.take(k as int);
        assert(pre.drop_last() =~= segs@.take(k - 1));
        if same_point(segs[k - 1].0, p) {
            return Some(segs[k - 1].1);
        }
        k -= 1;
    }
    None
}

fn contains_point(v: &Vec<GridPoint>, p: GridPoint) -> (r: bool)
    ensures
        r == v@.contains(p),
{
    let n = v.len();
    let mut i: usize = 0;
    while i < n
        invariant
            i <= n,
            n == v@.len(),
            forall|j: int| 0 <= j < i ==> v@[j] != p,
        decreases n - i,
    {
        if same_point(v[i], p) {
            return true;
        }
        i += 1;
    }
    false
}

fn walk_from(segs: &Vec<GridSegment>, start: GridPoint, vis: &mut Vec<GridPoint>) -> (r: Vec<GridPoint>)
    requires
        !old(vis)@.contains(start),
    ensures
        (r@, final(vis)@) == walk(segs@, start, old(vis)@, start),
{
    let ghost target = walk(segs@, start, vis@, start);
    let mut pts: Vec<GridPoint> = Vec::new();
    let mut cur = start;
    loop
        invariant_except_break
            !vis@.contains(cur),
            (pts@ + walk(segs@, start, vis@, cur).0, walk(segs@, start, vis@, cur).1) == target,
        ensures
            (pts@, vis@) == target,
        decreases segs@.len() - covered(segs@, vis@),
    {
        match find_next(segs, cur) {
            None => {
                assert(pts@ + Seq::<GridPoint>::empty() =~= pts@);
                break;
            },
            Some(n) => {
                let ghost v0 = vis@;
                let ghost p0 = pts@;
                proof {
                    lemma_covered_grows(segs@, v0, cur);
                    lemma_covered_bound(segs@, v0.push(cur));
                }
                vis.push(cur);
                pts.push(cur);
                let prev = cur;
                cur = n;
                if same_point(cur, start) || contains_point(vis, cur) {
                    assert(pts@ =~= p0 + seq![prev]);
                    break;
                }
                assert(p0 + (seq![prev] + walk(segs@, start, vis@, cur).0) =~= pts@ + walk(segs@, start, vis@, cur).0);
            },
        }
    }
    pts
}

/// The contours traced from `segs`, walking from each of `starts` in
/// order (a start already visited is skipped); contours of fewer than
/// four points are dropped.
pub fn link_contours(segs: &Vec<GridSegment>, starts: &Vec<GridPoint>) -> (r: Vec<Vec<GridPoint>>)
    ensures
        r@.map_values(|c: Vec<GridPoint>| c@) == link(segs@, starts@).0,
{
    let mut out: Vec<Vec<GridPoint>> = Vec::new();
    let mut vis: Vec<GridPoint> = Vec::new();
    let n = starts.len();
    let mut i: usize = 0;
    assert(starts@.take(0) =~= Seq::<GridPoint>::empty());
    while i < n
        invariant
            i <= n,
            n == starts@.len(),
            (out@.map_values(|c: Vec<GridPoint>| c@), vis@) == link(segs@, starts@.take(i as int)),
        decreases n - i,
    {
        let s = starts[i];
        proof {
            assert(starts@.take(i + 1).drop_last() =~= starts@.take(i as int));
            assert(starts@.take(i + 1).last() == s);
        }
        if !contains_point(&vis, s) {
            let ghost before = out@.map_values(|c: Vec<GridPoint>| c@);
            let contour = walk_from(segs, s, &mut vis);
            if contour.len() >= 4 {
                let ghost cv = contour@;
                out.push(contour);
                assert(out@.map_values(|c: Vec<GridPoint>| c@) =~= before.push(cv));
            }
        }
        i += 1;
    }
    assert(starts@.take(n as int) =~= starts@);
    out
}

} // verus!

//! Paths as sequences of drawing commands over points of any kind, and
//! the anchor edits of the pen tools. Point arithmetic is handed in by the
//! caller, so the structure of each edit is what is stated here.
use vstd::prelude::*;

verus! {

/// A cubic Bézier segment over points `Pt`.
#[derive(Clone, Copy, Debug, PartialEq)]
pub struct BezierSegment<Pt> {
    pub start: Pt,
    pub control1: Pt,
    pub control2: Pt,
    pub end: Pt,
}

/// One drawing command of a path over points `Pt`.
#[derive(Clone, Copy, Debug, PartialEq)]
pub enum PathElement<Pt> {
    MoveTo(Pt),
    LineTo(Pt),
    CurveTo(BezierSegment<Pt>),
    ClosePath,
}

/// The pen position after drawing `els` (none before the first point).
pub open spec fn pen_after<Pt>(els: Seq<PathElement<Pt>>) -> Option<Pt>
    decreases els.len(),
{
    if els.len() == 0 {
        None
    } else {
        match els.last() {
            PathElement::MoveTo(p) => Some(p),
            PathElement::LineTo(p) => Some(p),
            PathElement::CurveTo(s) => Some(s.end),
            PathElement::ClosePath => pen_after(els.drop_last()),
        }
    }
}

/// The anchor an element ends on, if it has one.
pub open spec fn anchor_of<Pt>(e: PathElement<Pt>) -> Option<Pt> {
    match e {
        PathElement::MoveTo(p) => Some(p),
        PathElement::LineTo(p) => Some(p),
        PathElement::CurveTo(s) => Some(s.end),
        PathElement::ClosePath => None,
    }
}

/// Number of elements that carry an anchor.
pub open spec fn anchors_in<Pt>(els: Seq<PathElement<Pt>>) -> nat
    decreases els.len(),
{
    if els.len() == 0 {
        0
    } else {
        anchors_in(els.drop_last()) + if els.last() is ClosePath { 0nat } else { 1nat }
    }
}

/// Whether element `idx` can be split: not the first element, and a
/// curve, or a line with an anchor before it.
pub open spec fn splittable<Pt>(els: Seq<PathElement<Pt>>, idx: int) -> bool {
    &&& 0 < idx < els.len()
    &&& match els[idx] {
        PathElement::LineTo(_) => anchor_of(els[idx - 1]) is Some,
        PathElement::CurveTo(_) => true,
        _ => false,
    }
}

/// `out` is `els` with element `idx` split in two, `lerp` giving the point
/// at the chosen parameter between two points: a line gets the point
/// between its previous anchor and its end; a curve is cut by de
/// Casteljau's construction.
pub open spec fn split_at<Pt, F: Fn(Pt, Pt) -> Pt>(els: Seq<PathElement<Pt>>, idx: int, out: Seq<PathElement<Pt>>, lerp: F) -> bool {
    &&& out.len() == els.len() + 1
    &&& out.take(idx) == els.take(idx)
    &&& out.skip(idx + 2) == els.skip(idx + 1)
    &&& match els[idx] {
        PathElement::LineTo(p) => {
            &&& out[idx + 1] == PathElement::LineTo(p)
            &&& out[idx] matches PathElement::LineTo(m)
            &&& anchor_of(els[idx - 1]) matches Some(q)
            &&& lerp.ensures((q, p), m)
        },
        PathElement::CurveTo(s) => {
            &&& out[idx] matches PathElement::CurveTo(s1)
            &&& out[idx + 1] matches PathElement::CurveTo(s2)
            &&& s1.start == s.start && s2.end == s.end && s1.end == s2.start
            &&& lerp.ensures((s.start, s.control1), s1.control1)
            &&& lerp.ensures((s.control2, s.end), s2.control2)
            &&& lerp.ensures((s1.control2, s2.control1), s1.end)
            &&& exists|b: Pt| #[trigger] lerp.ensures((s.control1, s.control2), b)
                && lerp.ensures((s1.control1, b), s1.control2)
                && lerp.ensures((b, s2.control2), s2.control1)
        },
        _ => false,
    }
}

/// Whether the anchor of element `idx` can be removed: it exists, at
/// least three anchors would remain, and when it is the first one the next
/// element carries an anchor to start from.
pub open spec fn removable<Pt>(els: Seq<PathElement<Pt>>, idx: int) -> bool {
    &&& 0 <= idx < els.len()
    &&& !(els[idx] is ClosePath)
    &&& anchors_in(els) >= 4
    &&& (idx == 0 ==> els.len() >= 2 && anchor_of(els[1]) is Some)
}

/// `out` is `els` without the anchor of element `idx`. The first anchor
/// is dropped by starting at the next one in its place. Any other is
/// dropped with its element; a curve that followed it then departs from
/// the previous anchor, its first handle moved along by `shift` (given
/// the handle, the previous anchor and the dropped one).
pub open spec fn anchor_removed<Pt, F: Fn(Pt, Pt, Pt) -> Pt>(els: Seq<PathElement<Pt>>, idx: int, out: Seq<PathElement<Pt>>, shift: F) -> bool {
    if idx == 0 {
        out == els.remove(1).update(0, PathElement::MoveTo(anchor_of(els[1])->0))
    } else {
        let rest = els.remove(idx);
        if idx + 1 < els.len() && els[idx + 1] is CurveTo && anchor_of(els[idx - 1]) is Some {
            &&& out.len() == rest.len()
            &&& forall|j: int| 0 <= j < rest.len() && j != idx ==> out[j] == rest[j]
            &&& els[idx + 1] matches PathElement::CurveTo(s)
            &&& out[idx] matches PathElement::CurveTo(s2)
            &&& s2.start == anchor_of(els[idx - 1])->0
            &&& s2.control2 == s.control2 && s2.end == s.end
            &&& shift.ensures((s.control1, anchor_of(els[idx - 1])->0, anchor_of(els[idx])->0), s2.control1)
        } else {
            out == rest
        }
    }
}

/// The point lists held in a list of vectors.
pub open spec fn views<Pt>(v: Seq<Vec<Pt>>) -> Seq<Seq<Pt>> {
    v.map_values(|x: Vec<Pt>| x@)
}

/// A run as its subpath keeps it: a trailing copy of the first point is
/// dropped when `dup` says the two ends coincide.
pub open spec fn trimmed<Pt>(cur: Seq<Pt>, dup: bool) -> Seq<Pt> {
    if dup { cur.drop_last() } else { cur }
}

/// The finished subpaths once the run `cur` is closed off: kept when at
/// least three points remain of it.
pub open spec fn closed_off<Pt>(done: Seq<Seq<Pt>>, cur: Seq<Pt>, dup: bool) -> Seq<Seq<Pt>> {
    if trimmed(cur, dup).len() >= 3 { done.push(trimmed(cur, dup)) } else { done }
}

/// `out` is a result of splitting `els` into subpaths after the finished
/// subpaths `done` and the open run `cur`: a `MoveTo` starts a new run
/// (keeping the old one if it has two points), lines add their end, curves
/// the points `flatten` gives for them, and a `ClosePath` or the end of the
/// path closes off a run of at least three points, `same` telling whether
/// its ends coincide.
pub open spec fn subpaths_from<Pt, F: Fn(BezierSegment<Pt>) -> Vec<Pt>, G: Fn(Pt, Pt) -> bool>(
    els: Seq<PathElement<Pt>>,
    done: Seq<Seq<Pt>>,
    cur: Seq<Pt>,
    out: Seq<Seq<Pt>>,
    flatten: F,
    same: G,
) -> bool
    decreases els.len(),
{
    if els.len() == 0 {
        if cur.len() >= 3 {
            exists|d: bool| #[trigger] same.ensures((cur[0], cur.last()), d) && out == closed_off(done, cur, d)
        } else {
            out == done
        }
    } else {
        match els[0] {
            PathElement::MoveTo(p) => subpaths_from(
                els.skip(1),
                if cur.len() >= 2 { done.push(cur) } else { done },
                seq![p],
                out,
                flatten,
                same,
            ),
            PathElement::LineTo(p) => subpaths_from(els.skip(1), done, cur.push(p), out, flatten, same),
            PathElement::CurveTo(s) => exists|f: Vec<Pt>| #[trigger] flatten.ensures((s,), f)
                && subpaths_from(els.skip(1), done, cur + f@, out, flatten, same),
            PathElement::ClosePath => if cur.len() >= 3 {
                exists|d: bool| #[trigger] same.ensures((cur[0], cur.last()), d)
                    && subpaths_from(els.skip(1), closed_off(done, cur, d), Seq::empty(), out, flatten, same)
            } else {
                subpaths_from(els.skip(1), done, cur, out, flatten, same)
            },
        }
    }
}

/// `out` is a result of flattening `els` into one point list after the
/// points `pts`: anchors are added in turn, curves add the points `flatten`
/// gives for them, and a `ClosePath` repeats the first point unless `same`
/// says the list already ends on it.
pub open spec fn polygon_from<Pt, F: Fn(BezierSegment<Pt>) -> Vec<Pt>, G: Fn(Pt, Pt) -> bool>(
    els: Seq<PathElement<Pt>>,
    pts: Seq<Pt>,
    out: Seq<Pt>,
    flatten: F,
    same: G,
) -> bool
    decreases els.len(),
{
    if els.len() == 0 {
        out == pts
    } else {
        match els[0] {
            PathElement::MoveTo(p) => polygon_from(els.skip(1), pts.push(p), out, flatten, same),
            PathElement::LineTo(p) => polygon_from(els.skip(1), pts.push(p), out, flatten, same),
            PathElement::CurveTo(s) => exists|f: Vec<Pt>| #[trigger] flatten.ensures((s,), f)
                && polygon_from(els.skip(1), pts + f@, out, flatten, same),
            PathElement::ClosePath => if pts.len() > 1 {
                exists|d: bool| #[trigger] same.ensures((pts.last(), pts[0]), d)
                    && polygon_from(els.skip(1), if d { pts } else { pts.push(pts[0]) }, out, flatten, same)
            } else {
                polygon_from(els.skip(1), pts, out, flatten, same)
            },
        }
    }
}

/// Anchors of two pieces joined are those of each.
proof fn lemma_anchors_concat<Pt>(a: Seq<PathElement<Pt>>, b: Seq<PathElement<Pt>>)
    ensures
        anchors_in(a + b) == anchors_in(a) + anchors_in(b),
    decreases b.len(),
{
    if b.len() == 0 {
        assert(a + b =~= a);
    } else {
        lemma_anchors_concat(a, b.drop_last());
        assert((a + b).drop_last() =~= a + b.drop_last());
    }
}

/// Anchors counted around element `i`.
proof fn lemma_anchors_at<Pt>(s: Seq<PathElement<Pt>>, i: int)
    requires
        0 <= i < s.len(),
    ensures
        anchors_in(s) == anchors_in(s.take(i)) + (if s[i] is ClosePath { 0nat } else { 1nat }) + anchors_in(s.skip(i + 1)),
{
    let one = seq![s[i]];
    assert(one.drop_last() =~= Seq::<PathElement<Pt>>::empty());
    assert(anchors_in(Seq::<PathElement<Pt>>::empty()) == 0);
    assert(one.last() == s[i]);
    assert(anchors_in(one) == (if s[i] is ClosePath { 0nat } else { 1nat }));
    assert(s =~= s.take(i) + one + s.skip(i + 1));
    lemma_anchors_concat(s.take(i), one);
    lemma_anchors_concat(s.take(i) + one, s.skip(i + 1));
}

/// Two paths whose elements agree on being `ClosePath` have as many anchors.
proof fn lemma_anchors_same_shape<Pt>(a: Seq<PathElement<Pt>>, b: Seq<PathElement<Pt>>)
    requires
        a.len() == b.len(),
        forall|j: int| 0 <= j < a.len() ==> (#[trigger] a[j] is ClosePath <==> b[j] is ClosePath),
    ensures
        anchors_in(a) == anchors_in(b),
    decreases a.len(),
{
    if a.len() > 0 {
        lemma_anchors_same_shape(a.drop_last(), b.drop_last());
    }
}

/// A split adds exactly one anchor.
proof fn lemma_split_adds_anchor<Pt, F: Fn(Pt, Pt) -> Pt>(els: Seq<PathElement<Pt>>, idx: int, out: Seq<PathElement<Pt>>, lerp: F)
    requires
        splittable(els, idx),
        split_at(els, idx, out, lerp),
    ensures
        anchors_in(out) == anchors_in(els) + 1,
{
    lemma_anchors_at(els, idx);
    lemma_anchors_at(out, idx);
    lemma_anchors_at(out.skip(idx + 1), 0);
    assert(out.skip(idx + 1).skip(1) =~= out.skip(idx + 2));
    assert(out.skip(idx + 1).take(0) =~= Seq::<PathElement<Pt>>::empty());
}

/// A removal takes away exactly one anchor.
proof fn lemma_remove_drops_anchor<Pt, F: Fn(Pt, Pt, Pt) -> Pt>(els: Seq<PathElement<Pt>>, idx: int, out: Seq<PathElement<Pt>>, shift: F)
    requires
        removable(els, idx),
        anchor_removed(els, idx, out, shift),
    ensures
        anchors_in(out) + 1 == anchors_in(els),
{
    let k = if idx == 0 { 1 } else { idx };
    let rest = els.remove(k);
    lemma_anchors_at(els, k);
    assert(rest =~= els.take(k) + els.skip(k + 1));
    lemma_anchors_concat(els.take(k), els.skip(k + 1));
    lemma_anchors_same_shape(out, rest);
}

impl<Pt: Copy> BezierSegment<Pt> {
    /// A segment from its four points.
    pub fn cubic(start: Pt, c1: Pt, c2: Pt, end: Pt) -> (s: Self)
        ensures
            s == (BezierSegment { start, control1: c1, control2: c2, end }),
    {
        BezierSegment { start, control1: c1, control2: c2, end }
    }

    /// A straight segment: each control point sits on its end.
    pub fn line(start: Pt, end: Pt) -> (s: Self)
        ensures
            s == (BezierSegment { start, control1: start, control2: end, end }),
    {
        BezierSegment { start, control1: start, control2: end, end }
    }
}

/// The outline of a path object: its drawing commands and whether it is
/// closed.
pub struct PathData<Pt> {
    pub elements: Vec<PathElement<Pt>>,
    pub closed: bool,
}

impl<Pt: Copy> PathData<Pt> {
    /// An empty, open path.
    pub fn new() -> (p: Self)
        ensures
            p.elements@.len() == 0,
            !p.closed,
    {
        PathData { elements: Vec::new(), closed: false }
    }

    /// Whether the path has no commands.
    pub fn is_empty(&self) -> (r: bool)
        ensures
            r == (self.elements@.len() == 0),
    {
        self.elements.len() == 0
    }

    /// Starts a new subpath at `p`.
    pub fn push_move_to(&mut self, p: Pt)
        ensures
            final(self).elements@ == old(self).elements@.push(PathElement::MoveTo(p)),
            final(self).closed == old(self).closed,
    {
        self.elements.push(PathElement::MoveTo(p));
    }

    /// Draws a straight line to `p`.
    pub fn push_line_to(&mut self, p: Pt)
        ensures
            final(self).elements@ == old(self).elements@.push(PathElement::LineTo(p)),
            final(self).closed == old(self).closed,
    {
        self.elements.push(PathElement::LineTo(p));
    }

    /// Draws a cubic curve to `end` from the pen position, or from
    /// `origin` while the pen has none.
    pub fn push_curve_to(&mut self, c1: Pt, c2: Pt, end: Pt, origin: Pt)
        ensures
            final(self).elements@ == old(self).elements@.push(PathElement::CurveTo(BezierSegment {
                start: match pen_after(old(self).elements@) {
                    Some(q) => q,
                    None => origin,
                },
                control1: c1,
                control2: c2,
                end,
            })),
            final(self).closed == old(self).closed,
    {
        let start = match self.last_point() {
            Some(q) => q,
            None => origin,
        };
        self.elements.push(PathElement::CurveTo(BezierSegment::cubic(start, c1, c2, end)));
    }

    /// Closes the path.
    pub fn close(&mut self)
        ensures
            final(self).elements@ == old(self).elements@.push(PathElement::ClosePath),
            final(self).closed,
    {
        self.closed = true;
        self.elements.push(PathElement::ClosePath);
    }

    /// The pen position at the end of the path.
    pub fn last_point(&self) -> (r: Option<Pt>)
        ensures
            r == pen_after(self.elements@),
    {
        let mut i = self.elements.len();
        assert(self.elements@.take(i as int) =~= self.elements@);
        while i > 0
            invariant
                i <= self.elements@.len(),
                pen_after(self.elements@) == pen_after(self.elements@.take(i as int)),
            decreases i,
        {
            let ghost t = self.elements@.take(i as int);
            assert(t.last() == self.elements@[i - 1]);
            assert(t.drop_last() =~= self.elements@.take(i - 1));
            match self.elements[i - 1] {
                PathElement::MoveTo(p) => { return Some(p); },
                PathElement::LineTo(p) => { return Some(p); },
                PathElement::CurveTo(s) => { return Some(s.end); },
                PathElement::ClosePath => {},
            }
            i = i - 1;
        }
        None
    }

    /// Number of anchors (every command but `ClosePath`).
    pub fn anchor_count(&self) -> (r: usize)
        ensures
            r == anchors_in(self.elements@),
    {
        let n = self.elements.len();
        let mut count: usize = 0;
        for i in 0..n
            invariant
                n == self.elements@.len(),
                count == anchors_in(self.elements@.take(i as int)),
                count <= i,
        {
            assert(self.elements@.take(i + 1).drop_last() =~= self.elements@.take(i as int));
            match self.elements[i] {
                PathElement::ClosePath => {},
                _ => { count += 1; },
            }
        }
        assert(self.elements@.take(n as int) =~= self.elements@);
        count
    }

    /// The anchor of element `idx`, if there is such an element and it
    /// carries one.
    pub fn element_anchor(&self, idx: usize) -> (r: Option<Pt>)
        ensures
            r == (if idx < self.elements@.len() { anchor_of(self.elements@[idx as int]) } else { None }),
    {
        if idx >= self.elements.len() {
            return None;
        }
        match self.elements[idx] {
            PathElement::MoveTo(p) => Some(p),
            PathElement::LineTo(p) => Some(p),
            PathElement::CurveTo(s) => Some(s.end),
            PathElement::ClosePath => None,
        }
    }
    /// Splits the segment that ends at element `elem_idx` in two, `lerp`
    /// giving the point at the chosen parameter between two points.
    /// Returns whether it did; the first element, a `MoveTo`, a
    /// `ClosePath`, or a line with no anchor before it is not split.
    pub fn split_segment<F: Fn(Pt, Pt) -> Pt>(&mut self, elem_idx: usize, lerp: F) -> (r: bool)
        requires
            forall|a: Pt, b: Pt| #[trigger] lerp.requires((a, b)),
        ensures
            r == splittable(old(self).elements@, elem_idx as int),
            r ==> split_at(old(self).elements@, elem_idx as int, final(self).elements@, lerp),
            r ==> anchors_in(final(self).elements@) == anchors_in(old(self).elements@) + 1,
            !r ==> final(self).elements@ == old(self).elements@,
            final(self).closed == old(self).closed,
    {
        if elem_idx == 0 || elem_idx >= self.elements.len() {
            return false;
        }
        let ghost els = self.elements@;
        match self.elements[elem_idx] {
            PathElement::LineTo(p) => {
                match self.element_anchor(elem_idx - 1) {
                    None => false,
                    Some(prev) => {
                        let m = lerp(prev, p);
                        self.elements.set(elem_idx, PathElement::LineTo(m));
                        self.elements.insert(elem_idx + 1, PathElement::LineTo(p));
                        proof {
                            assert(self.elements@.take(elem_idx as int) =~= els.take(elem_idx as int));
                            assert(self.elements@.skip(elem_idx + 2) =~= els.skip(elem_idx + 1));
                            lemma_split_adds_anchor(els, elem_idx as int, self.elements@, lerp);
                        }
                        true
                    },
                }
            },
            PathElement::CurveTo(seg) => {
                let a = lerp(seg.start, seg.control1);
                let b = lerp(seg.control1, seg.control2);
                let c = lerp(seg.control2, seg.end);
                let d = lerp(a, b);
                let e = lerp(b, c);
                let f = lerp(d, e);
                let s1 = BezierSegment::cubic(seg.start, a, d, f);
                let s2 = BezierSegment::cubic(f, e, c, seg.end);
                self.elements.set(elem_idx, PathElement::CurveTo(s1));
                self.elements.insert(elem_idx + 1, PathElement::CurveTo(s2));
                proof {
                    assert(self.elements@.take(elem_idx as int) =~= els.take(elem_idx as int));
                    assert(self.elements@.skip(elem_idx + 2) =~= els.skip(elem_idx + 1));
                    assert(lerp.ensures((seg.control1, seg.control2), b));
                    lemma_split_adds_anchor(els, elem_idx as int, self.elements@, lerp);
                }
                true
            },
            _ => false,
        }
    }

    /// Removes the anchor of element `elem_idx`, reconnecting its
    /// neighbours; `shift` moves the first handle of a following curve
    /// (given the handle, the previous anchor and the removed one).
    /// Returns whether it did: a removal that would leave fewer than three
    /// anchors, a `ClosePath`, or a first anchor with nothing after it to
    /// start from is refused.
    pub fn remove_anchor<F: Fn(Pt, Pt, Pt) -> Pt>(&mut self, elem_idx: usize, shift: F) -> (r: bool)
        requires
            forall|h: Pt, a: Pt, b: Pt| #[trigger] shift.requires((h, a, b)),
        ensures
            r == removable(old(self).elements@, elem_idx as int),
            r ==> anchor_removed(old(self).elements@, elem_idx as int, final(self).elements@, shift),
            r ==> anchors_in(final(self).elements@) + 1 == anchors_in(old(self).elements@),
            !r ==> final(self).elements@ == old(self).elements@,
            final(self).closed == old(self).closed,
    {
        if elem_idx >= self.elements.len() {
            return false;
        }
        if let PathElement::ClosePath = self.elements[elem_idx] {
            return false;
        }
        if self.anchor_count() < 4 {
            return false;
        }
        if elem_idx == 0 {
            if self.elements.len() < 2 {
                return false;
            }
            let next = match self.element_anchor(1) {
                Some(q) => q,
                None => { return false; },
            };
            let ghost els = self.elements@;
            self.elements.set(0, PathElement::MoveTo(next));
            self.elements.remove(1);
            assert(self.elements@ =~= els.remove(1).update(0, PathElement::MoveTo(next)));
            proof { lemma_remove_drops_anchor(els, 0, self.elements@, shift); }
            return true;
        }
        let ghost els = self.elements@;
        let deleted = match self.element_anchor(elem_idx) {
            Some(q) => q,
            None => { return false; },
        };
        self.elements.remove(elem_idx);
        assert(self.elements@ == els.remove(elem_idx as int));
        if let Some(prev) = self.element_anchor(elem_idx - 1) {
            if elem_idx < self.elements.len() {
                if let PathElement::CurveTo(seg) = self.elements[elem_idx] {
                    let c1 = shift(seg.control1, prev, deleted);
                    let moved = BezierSegment { start: prev, control1: c1, control2: seg.control2, end: seg.end };
                    self.elements.set(elem_idx, PathElement::CurveTo(moved));
                }
            }
        }
        proof { lemma_remove_drops_anchor(els, elem_idx as int, self.elements@, shift); }
        true
    }

    /// The separate subpaths of the path as point lists (holes and
    /// islands apart): `flatten` gives the points a curve adds after its
    /// start, `same` whether two points coincide. Runs of fewer than three
    /// points are dropped when closed off, as is a closing copy of the first
    /// point.
    pub fn to_subpaths<F: Fn(BezierSegment<Pt>) -> Vec<Pt>, G: Fn(Pt, Pt) -> bool>(&self, flatten: F, same: G) -> (out: Vec<Vec<Pt>>)
        requires
            forall|s: BezierSegment<Pt>| #[trigger] flatten.requires((s,)),
            forall|a: Pt, b: Pt| #[trigger] same.requires((a, b)),
        ensures
            subpaths_from(self.elements@, Seq::empty(), Seq::empty(), views(out@), flatten, same),
    {
        let n = self.elements.len();
        let mut done: Vec<Vec<Pt>> = Vec::new();
        let mut cur: Vec<Pt> = Vec::new();
        let mut i: usize = 0;
        assert(self.elements@.skip(0) =~= self.elements@);
        assert(views(done@) =~= Seq::<Seq<Pt>>::empty());
        while i < n
            invariant
                n == self.elements@.len(),
                i <= n,
                forall|s: BezierSegment<Pt>| #[trigger] flatten.requires((s,)),
                forall|a: Pt, b: Pt| #[trigger] same.requires((a, b)),
                forall|o: Seq<Seq<Pt>>| #[trigger] subpaths_from(self.elements@.skip(i as int), views(done@), cur@, o, flatten, same)
                    ==> subpaths_from(self.elements@, Seq::empty(), Seq::empty(), o, flatten, same),
            decreases n - i,
        {
            let ghost els = self.elements@;
            let ghost d0 = views(done@);
            let ghost c0 = cur@;
            assert(els.skip(i as int).skip(1) =~= els.skip(i + 1));
            assert(els.skip(i as int)[0] == els[i as int]);
            match self.elements[i] {
                PathElement::MoveTo(p) => {
                    let mut fresh: Vec<Pt> = Vec::new();
                    fresh.push(p);
                    if cur.len() >= 2 {
                        done.push(cur);
                        assert(views(done@) =~= d0.push(c0));
                    }
                    cur = fresh;
                    assert(cur@ =~= seq![p]);
                },
                PathElement::LineTo(p) => {
                    cur.push(p);
                },
                PathElement::CurveTo(seg) => {
                    let f = flatten(seg);
                    let m = f.len();
                    for k in 0..m
                        invariant
                            m == f@.len(),
                            cur@ =~= c0 + f@.take(k as int),
                    {
                        cur.push(f[k]);
                        assert(f@.take(k + 1) =~= f@.take(k as int).push(f@[k as int]));
                    }
                    assert(f@.take(m as int) =~= f@);
                    assert(flatten.ensures((seg,), f));
                },
                PathElement::ClosePath => {
                    if cur.len() >= 3 {
                        let dup = same(cur[0], cur[cur.len() - 1]);
                        assert(same.ensures((c0[0], c0.last()), dup));
                        if dup {
                            cur.pop();
                        }
                        assert(cur@ =~= trimmed(c0, dup));
                        if cur.len() >= 3 {
                            done.push(cur);
                            assert(views(done@) =~= d0.push(trimmed(c0, dup)));
                        }
                        assert(views(done@) == closed_off(d0, c0, dup));
                        cur = Vec::new();
                        assert(cur@ =~= Seq::<Pt>::empty());
                    }
                },
            }
            proof {
                assert forall|o: Seq<Seq<Pt>>| #[trigger] subpaths_from(els.skip(i + 1), views(done@), cur@, o, flatten, same)
                    implies subpaths_from(els, Seq::empty(), Seq::empty(), o, flatten, same) by {
                    assert(subpaths_from(els.skip(i as int), d0, c0, o, flatten, same));
                }
            }
            i = i + 1;
        }
        let ghost d0 = views(done@);
        let ghost c0 = cur@;
        assert(self.elements@.skip(n as int) =~= Seq::<PathElement<Pt>>::empty());
        if cur.len() >= 3 {
            let dup = same(cur[0], cur[cur.len() - 1]);
            assert(same.ensures((c0[0], c0.last()), dup));
            if dup {
                cur.pop();
            }
            assert(cur@ =~= trimmed(c0, dup));
            if cur.len() >= 3 {
                done.push(cur);
                assert(views(done@) =~= d0.push(trimmed(c0, dup)));
            }
            assert(views(done@) == closed_off(d0, c0, dup));
            assert(subpaths_from(self.elements@.skip(n as int), d0, c0, views(done@), flatten, same));
        } else {
            assert(subpaths_from(self.elements@.skip(n as int), d0, c0, views(done@), flatten, same));
        }
        done
    }

    /// The whole path as one point list: `flatten` gives the points a
    /// curve adds after its start, `same` whether two points coincide; a
    /// `ClosePath` returns to the first point.
    pub fn to_polygon<F: Fn(BezierSegment<Pt>) -> Vec<Pt>, G: Fn(Pt, Pt) -> bool>(&self, flatten: F, same: G) -> (out: Vec<Pt>)
        requires
            forall|s: BezierSegment<Pt>| #[trigger] flatten.requires((s,)),
            forall|a: Pt, b: Pt| #[trigger] same.requires((a, b)),
        ensures
            polygon_from(self.elements@, Seq::empty(), out@, flatten, same),
    {
        let n = self.elements.len();
        let mut pts: Vec<Pt> = Vec::new();
        let mut i: usize = 0;
        assert(self.elements@.skip(0) =~= self.elements@);
        while i < n
            invariant
                n == self.elements@.len(),
                i <= n,
                forall|s: BezierSegment<Pt>| #[trigger] flatten.requires((s,)),
                forall|a: Pt, b: Pt| #[trigger] same.requires((a, b)),
                forall|o: Seq<Pt>| #[trigger] polygon_from(self.elements@.skip(i as int), pts@, o, flatten, same)
                    ==> polygon_from(self.elements@, Seq::empty(), o, flatten, same),
            decreases n - i,
        {
            let ghost els = self.elements@;
            let ghost p0 = pts@;
            assert(els.skip(i as int).skip(1) =~= els.skip(i + 1));
            assert(els.skip(i as int)[0] == els[i as int]);
            match self.elements[i] {
                PathElement::MoveTo(p) => {
                    pts.push(p);
                },
                PathElement::LineTo(p) => {
                    pts.push(p);
                },
                PathElement::CurveTo(seg) => {
                    let f = flatten(seg);
                    let m = f.len();
                    for k in 0..m
                        invariant
                            m == f@.len(),
                            pts@ =~= p0 + f@.take(k as int),
                    {
                        pts.push(f[k]);
                        assert(f@.take(k + 1) =~= f@.take(k as int).push(f@[k as int]));
                    }
                    assert(f@.take(m as int) =~= f@);
                    assert(flatten.ensures((seg,), f));
                },
                PathElement::ClosePath => {
                    if pts.len() > 1 {
                        let first = pts[0];
                        let d = same(pts[pts.len() - 1], first);
                        assert(same.ensures((p0.last(), p0[0]), d));
                        if !d {
                            pts.push(first);
                        }
                    }
                },
            }
            proof {
                assert forall|o: Seq<Pt>| #[trigger] polygon_from(els.skip(i + 1), pts@, o, flatten, same)
                    implies polygon_from(els, Seq::empty(), o, flatten, same) by {
                    assert(polygon_from(els.skip(i as int), p0, o, flatten, same));
                }
            }
            i = i + 1;
        }
        assert(self.elements@.skip(n as int) =~= Seq::<PathElement<Pt>>::empty());
        assert(polygon_from(self.elements@.skip(n as int), pts@, pts@, flatten, same));
        pts
    }
}

} // verus!

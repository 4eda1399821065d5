//! Live envelope deformations, and the subdivision of paths that gives
//! them interior points to bend.
use vstd::prelude::*;
use crate::path::{pen_after, BezierSegment, PathElement};

verus! {

/// A live (non-destructive) envelope deformation.
#[derive(PartialEq, Eq, Structural, Clone, Copy, Debug)]
pub enum EnvelopeKind {
    Bulge,
    Pinch,
    Twist,
    Wave,
}

/// Display name of an envelope kind.
pub open spec fn envelope_kind_name(v: EnvelopeKind) -> Seq<char> {
    match v {
        EnvelopeKind::Bulge => "Bulge"@,
        EnvelopeKind::Pinch => "Pinch"@,
        EnvelopeKind::Twist => "Twist"@,
        EnvelopeKind::Wave => "Wave"@,
    }
}

impl EnvelopeKind {
    /// Display name.
    pub fn name(&self) -> (r: &'static str)
        ensures
            r@ == envelope_kind_name(*self),
    {
        match self {
            EnvelopeKind::Bulge => "Bulge",
            EnvelopeKind::Pinch => "Pinch",
            EnvelopeKind::Twist => "Twist",
            EnvelopeKind::Wave => "Wave",
        }
    }
}

/// The pieces joined in order.
pub open spec fn concat_pieces<A>(ps: Seq<Seq<A>>) -> Seq<A>
    decreases ps.len(),
{
    if ps.len() == 0 { Seq::empty() } else { concat_pieces(ps.drop_last()) + ps.last() }
}

/// The start of the subpath being drawn after `els`: the point of the
/// last `MoveTo`.
pub open spec fn subpath_start<Pt>(els: Seq<PathElement<Pt>>) -> Option<Pt>
    decreases els.len(),
{
    if els.len() == 0 {
        None
    } else {
        match els.last() {
            PathElement::MoveTo(p) => Some(p),
            _ => subpath_start(els.drop_last()),
        }
    }
}

/// What one element becomes when subdivided, with `mid` giving
/// midpoints: a line gains its midpoint (when the pen has a position), a
/// curve is split in two at its middle by de Casteljau's construction, the
/// closing edge gains the midpoint between the pen and the subpath's start
/// (when both are known), and a `MoveTo` stays.
pub open spec fn split_ok<Pt, F: Fn(Pt, Pt) -> Pt>(el: PathElement<Pt>, pen: Option<Pt>, start: Option<Pt>, piece: Seq<PathElement<Pt>>, mid: F) -> bool {
    match el {
        PathElement::MoveTo(p) => piece == seq![PathElement::MoveTo(p)],
        PathElement::LineTo(p) => match pen {
            Some(q) => piece.len() == 2 && piece[1] == PathElement::LineTo(p)
                && (piece[0] matches PathElement::LineTo(m) && mid.ensures((q, p), m)),
            None => piece == seq![PathElement::LineTo(p)],
        },
        PathElement::CurveTo(s) => {
            &&& piece.len() == 2
            &&& piece[0] matches PathElement::CurveTo(s1)
            &&& piece[1] matches PathElement::CurveTo(s2)
            &&& s1.start == s.start && s2.end == s.end && s1.end == s2.start
            &&& mid.ensures((s.start, s.control1), s1.control1)
            &&& mid.ensures((s.control2, s.end), s2.control2)
            &&& mid.ensures((s1.control2, s2.control1), s1.end)
            &&& exists|b: Pt| #[trigger] mid.ensures((s.control1, s.control2), b)
                && mid.ensures((s1.control1, b), s1.control2)
                && mid.ensures((b, s2.control2), s2.control1)
        },
        PathElement::ClosePath => match (pen, start) {
            (Some(q), Some(s0)) => piece.len() == 2 && piece[1] == PathElement::<Pt>::ClosePath
                && (piece[0] matches PathElement::LineTo(m) && mid.ensures((q, s0), m)),
            _ => piece == seq![PathElement::<Pt>::ClosePath],
        },
    }
}

/// `out` is `els` with every element subdivided once.
pub open spec fn subdivided_once<Pt, F: Fn(Pt, Pt) -> Pt>(els: Seq<PathElement<Pt>>, out: Seq<PathElement<Pt>>, mid: F) -> bool {
    exists|pieces: Seq<Seq<PathElement<Pt>>>| {
        &&& pieces.len() == els.len()
        &&& #[trigger] concat_pieces(pieces) == out
        &&& forall|i: int| 0 <= i < els.len() ==> split_ok(els[i], pen_after(els.take(i)), subpath_start(els.take(i)), #[trigger] pieces[i], mid)
    }
}

/// `out` is `els` subdivided `n` times over.
pub open spec fn subdivided<Pt, F: Fn(Pt, Pt) -> Pt>(els: Seq<PathElement<Pt>>, n: nat, out: Seq<PathElement<Pt>>, mid: F) -> bool
    decreases n,
{
    if n == 0 {
        out == els
    } else {
        exists|prev: Seq<PathElement<Pt>>| subdivided(els, (n - 1) as nat, prev, mid) && #[trigger] subdivided_once(prev, out, mid)
    }
}

fn subdivide_once<Pt: Copy, F: Fn(Pt, Pt) -> Pt>(els: &Vec<PathElement<Pt>>, mid: &F) -> (out: Vec<PathElement<Pt>>)
    requires
        forall|a: Pt, b: Pt| #[trigger] mid.requires((a, b)),
    ensures
        subdivided_once(els@, out@, *mid),
{
    let mut out: Vec<PathElement<Pt>> = Vec::new();
    let mut pen: Option<Pt> = None;
    let mut start: Option<Pt> = None;
    let ghost mut pieces: Seq<Seq<PathElement<Pt>>> = Seq::empty();
    let n = els.len();
    let mut i: usize = 0;
    assert(els@.take(0) =~= Seq::<PathElement<Pt>>::empty());
    while i < n
        invariant
            i <= n,
            n == els@.len(),
            forall|a: Pt, b: Pt| #[trigger] mid.requires((a, b)),
            pieces.len() == i,
            concat_pieces(pieces) == out@,
            forall|j: int| 0 <= j < i ==> split_ok(els@[j], pen_after(els@.take(j)), subpath_start(els@.take(j)), #[trigger] pieces[j], *mid),
            pen == pen_after(els@.take(i as int)),
            start == subpath_start(els@.take(i as int)),
        decreases n - i,
    {
        let ghost before = out@;
        let ghost mut piece: Seq<PathElement<Pt>> = Seq::empty();
        proof {
            assert(els@.take(i + 1).drop_last() =~= els@.take(i as int));
            assert(els@.take(i + 1).last() == els@[i as int]);
        }
        match els[i] {
            PathElement::MoveTo(p) => {
                out.push(PathElement::MoveTo(p));
                pen = Some(p);
                start = Some(p);
                proof { piece = seq![PathElement::MoveTo(p)]; }
            },
            PathElement::LineTo(p) => {
                match pen {
                    Some(q) => {
                        let m = mid(q, p);
                        out.push(PathElement::LineTo(m));
                        out.push(PathElement::LineTo(p));
                        proof { piece = seq![PathElement::LineTo(m), PathElement::LineTo(p)]; }
                    },
                    None => {
                        out.push(PathElement::LineTo(p));
                        proof { piece = seq![PathElement::LineTo(p)]; }
                    },
                }
                pen = Some(p);
            },
            PathElement::CurveTo(seg) => {
                let a = mid(seg.start, seg.control1);
                let b = mid(seg.control1, seg.control2);
                let c = mid(seg.control2, seg.end);
                let d = mid(a, b);
                let e = mid(b, c);
                let f = mid(d, e);
                let s1 = BezierSegment { start: seg.start, control1: a, control2: d, end: f };
                let s2 = BezierSegment { start: f, control1: e, control2: c, end: seg.end };
                out.push(PathElement::CurveTo(s1));
                out.push(PathElement::CurveTo(s2));
                pen = Some(seg.end);
                proof {
                    piece = seq![PathElement::CurveTo(s1), PathElement::CurveTo(s2)];
                    assert(mid.ensures((seg.control1, seg.control2), b));
                }
            },
            PathElement::ClosePath => {
                match (pen, start) {
                    (Some(q), Some(s0)) => {
                        let m = mid(q, s0);
                        out.push(PathElement::LineTo(m));
                        out.push(PathElement::ClosePath);
                        proof { piece = seq![PathElement::LineTo(m), PathElement::<Pt>::ClosePath]; }
                    },
                    _ => {
                        out.push(PathElement::ClosePath);
                        proof { piece = seq![PathElement::<Pt>::ClosePath]; }
                    },
                }
            },
        }
        proof {
            assert(out@ =~= before + piece);
            let ps = pieces.push(piece);
            assert(ps.drop_last() =~= pieces);
            assert(concat_pieces(ps) == out@);
            assert(split_ok(els@[i as int], pen_after(els@.take(i as int)), subpath_start(els@.take(i as int)), piece, *mid));
            assert forall|j: int| 0 <= j < i + 1 implies split_ok(els@[j], pen_after(els@.take(j)), subpath_start(els@.take(j)), #[trigger] ps[j], *mid) by {
                if j < i {
                    assert(ps[j] == pieces[j]);
                }
            }
            pieces = ps;
        }
        i += 1;
    }
    out
}

/// Subdivide a path `min(iterations, 4)` times over (see `split_ok`):
/// straight edges, the closing edge among them, gain their midpoints and
/// curves are split at their
/// middle, so that sparse shapes get interior points to bend. `mid`
/// gives the midpoint of two points.
pub fn subdivide_path<Pt: Copy, F: Fn(Pt, Pt) -> Pt>(elements: &Vec<PathElement<Pt>>, iterations: usize, mid: F) -> (r: Vec<PathElement<Pt>>)
    requires
        forall|a: Pt, b: Pt| #[trigger] mid.requires((a, b)),
    ensures
        subdivided(elements@, if iterations < 4 { iterations as nat } else { 4 }, r@, mid),
{
    let rounds = if iterations < 4 { iterations } else { 4 };
    let mut current: Vec<PathElement<Pt>> = Vec::new();
    let mut j: usize = 0;
    while j < elements.len()
        invariant
            j <= elements@.len(),
            current@ == elements@.take(j as int),
        decreases elements@.len() - j,
    {
        current.push(elements[j]);
        assert(elements@.take(j + 1) =~= elements@.take(j as int).push(elements@[j as int]));
        j += 1;
    }
    assert(elements@.take(elements@.len() as int) =~= elements@);
    let mut k: usize = 0;
    while k < rounds
        invariant
            k <= rounds,
            forall|a: Pt, b: Pt| #[trigger] mid.requires((a, b)),
            subdivided(elements@, k as nat, current@, mid),
        decreases rounds - k,
    {
        let ghost prev = current@;
        let next = subdivide_once(&current, &mid);
        assert(subdivided_once(prev, next@, mid));
        current = next;
        k += 1;
    }
    current
}


/// `mid` gives a single midpoint for each pair of points.
pub open spec fn single_valued<Pt, F: Fn(Pt, Pt) -> Pt>(mid: F) -> bool {
    forall|a: Pt, b: Pt, m1: Pt, m2: Pt| #[trigger] mid.ensures((a, b), m1) && #[trigger] mid.ensures((a, b), m2) ==> m1 == m2
}

proof fn lemma_split_single<Pt, F: Fn(Pt, Pt) -> Pt>(el: PathElement<Pt>, pen: Option<Pt>, start: Option<Pt>,
    p1: Seq<PathElement<Pt>>, p2: Seq<PathElement<Pt>>, mid: F)
    requires
        single_valued(mid),
        split_ok(el, pen, start, p1, mid),
        split_ok(el, pen, start, p2, mid),
    ensures
        p1 == p2,
{
    match el {
        PathElement::CurveTo(s) => {
            let b1 = choose|b: Pt| #[trigger] mid.ensures((s.control1, s.control2), b)
                && mid.ensures((p1[0]->CurveTo_0.control1, b), p1[0]->CurveTo_0.control2)
                && mid.ensures((b, p1[1]->CurveTo_0.control2), p1[1]->CurveTo_0.control1);
            let b2 = choose|b: Pt| #[trigger] mid.ensures((s.control1, s.control2), b)
                && mid.ensures((p2[0]->CurveTo_0.control1, b), p2[0]->CurveTo_0.control2)
                && mid.ensures((b, p2[1]->CurveTo_0.control2), p2[1]->CurveTo_0.control1);
            assert(b1 == b2);
            assert(p1[0] == p2[0]);
            assert(p1[1] == p2[1]);
            assert(p1 =~= p2);
        },
        PathElement::LineTo(_) => {
            if pen is Some {
                assert(p1 =~= p2);
            }
        },
        PathElement::ClosePath => {
            if pen is Some && start is Some {
                assert(p1 =~= p2);
            }
        },
        _ => {},
    }
}

proof fn lemma_once_single<Pt, F: Fn(Pt, Pt) -> Pt>(els: Seq<PathElement<Pt>>, o1: Seq<PathElement<Pt>>, o2: Seq<PathElement<Pt>>, mid: F)
    requires
        single_valued(mid),
        subdivided_once(els, o1, mid),
        subdivided_once(els, o2, mid),
    ensures
        o1 == o2,
{
    let ps1 = choose|pieces: Seq<Seq<PathElement<Pt>>>| {
        &&& pieces.len() == els.len()
        &&& #[trigger] concat_pieces(pieces) == o1
        &&& forall|i: int| 0 <= i < els.len() ==> split_ok(els[i], pen_after(els.take(i)), subpath_start(els.take(i)), #[trigger] pieces[i], mid)
    };
    let ps2 = choose|pieces: Seq<Seq<PathElement<Pt>>>| {
        &&& pieces.len() == els.len()
        &&& #[trigger] concat_pieces(pieces) == o2
        &&& forall|i: int| 0 <= i < els.len() ==> split_ok(els[i], pen_after(els.take(i)), subpath_start(els.take(i)), #[trigger] pieces[i], mid)
    };
    assert forall|i: int| 0 <= i < els.len() implies ps1[i] == ps2[i] by {
        lemma_split_single(els[i], pen_after(els.take(i)), subpath_start(els.take(i)), ps1[i], ps2[i], mid);
    }
    assert(ps1 =~= ps2);
}

/// With a single-valued midpoint, subdividing is a function of the path
/// and the number of rounds: no rounds give the path itself, and two
/// subdivisions with as many rounds agree (so any count above the bound of
/// four gives what four give).
pub proof fn law_subdivision_is_functional<Pt, F: Fn(Pt, Pt) -> Pt>(els: Seq<PathElement<Pt>>, n: nat,
    o1: Seq<PathElement<Pt>>, o2: Seq<PathElement<Pt>>, mid: F)
    requires
        single_valued(mid),
        subdivided(els, n, o1, mid),
        subdivided(els, n, o2, mid),
    ensures
        o1 == o2,
        n == 0 ==> o1 == els,
    decreases n,
{
    if n > 0 {
        let prev1 = choose|prev: Seq<PathElement<Pt>>| subdivided(els, (n - 1) as nat, prev, mid) && #[trigger] subdivided_once(prev, o1, mid);
        let prev2 = choose|prev: Seq<PathElement<Pt>>| subdivided(els, (n - 1) as nat, prev, mid) && #[trigger] subdivided_once(prev, o2, mid);
        law_subdivision_is_functional(els, (n - 1) as nat, prev1, prev2, mid);
        lemma_once_single(prev1, o1, o2, mid);
    }
}


/// Subdividing `a` rounds and then `b` more is subdividing `a + b` rounds;
/// so with a single-valued midpoint, `n` rounds give what one round and
/// then `n - 1` rounds give.
pub proof fn law_subdivision_composes<Pt, F: Fn(Pt, Pt) -> Pt>(els: Seq<PathElement<Pt>>, a: nat, b: nat,
    mid_path: Seq<PathElement<Pt>>, out: Seq<PathElement<Pt>>, mid: F)
    requires
        subdivided(els, a, mid_path, mid),
        subdivided(mid_path, b, out, mid),
    ensures
        subdivided(els, a + b, out, mid),
    decreases b,
{
    if b > 0 {
        let prev = choose|prev: Seq<PathElement<Pt>>| subdivided(mid_path, (b - 1) as nat, prev, mid) && #[trigger] subdivided_once(prev, out, mid);
        law_subdivision_composes(els, a, (b - 1) as nat, mid_path, prev, mid);
        assert(((a + b) - 1) as nat == a + (b - 1) as nat);
        assert(subdivided(els, (a + b - 1) as nat, prev, mid) && subdivided_once(prev, out, mid));
    }
}

} // verus!

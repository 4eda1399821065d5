//! Pathfinder operations and the edge-keeping rule of the polygon
//! clipper.
use vstd::prelude::*;

verus! {

/// A pathfinder operation on two or more shapes.
#[derive(PartialEq, Eq, Structural, Clone, Copy, Debug)]
pub enum BooleanOp {
    Union,
    Intersect,
    Subtract,
    Exclude,
}

/// Display name of a pathfinder operation.
pub open spec fn boolean_op_name(v: BooleanOp) -> Seq<char> {
    match v {
        BooleanOp::Union => "Unite"@,
        BooleanOp::Intersect => "Intersect"@,
        BooleanOp::Subtract => "Minus Front"@,
        BooleanOp::Exclude => "Exclude"@,
    }
}

/// Toolbar glyph of a pathfinder operation.
pub open spec fn boolean_op_icon(v: BooleanOp) -> Seq<char> {
    match v {
        BooleanOp::Union => "⧉"@,
        BooleanOp::Intersect => "⨅"@,
        BooleanOp::Subtract => "⊟"@,
        BooleanOp::Exclude => "⨁"@,
    }
}

impl BooleanOp {
    /// Display name.
    pub fn name(&self) -> (r: &'static str)
        ensures
            r@ == boolean_op_name(*self),
    {
        match self {
            BooleanOp::Union => "Unite",
            BooleanOp::Intersect => "Intersect",
            BooleanOp::Subtract => "Minus Front",
            BooleanOp::Exclude => "Exclude",
        }
    }

    /// Toolbar glyph.
    pub fn icon(&self) -> (r: &'static str)
        ensures
            r@ == boolean_op_icon(*self),
    {
        match self {
            BooleanOp::Union => "⧉",
            BooleanOp::Intersect => "⨅",
            BooleanOp::Subtract => "⊟",
            BooleanOp::Exclude => "⨁",
        }
    }
}


/// The operations the edge-tracing clipper performs directly.
#[derive(PartialEq, Eq, Structural, Clone, Copy, Debug)]
pub enum GhOp {
    Union,
    Intersect,
    Subtract,
}

/// Whether a directed boundary edge belongs to the result: for an
/// intersection the edges that run inside the other shape, for a union
/// those outside it, and for a subtraction the subject's edges outside the
/// clip and the clip's edges inside the subject.
pub open spec fn keeps_edge(op: GhOp, on_subject: bool, probe_inside_other: bool) -> bool {
    match op {
        GhOp::Intersect => probe_inside_other,
        GhOp::Union => !probe_inside_other,
        GhOp::Subtract => if on_subject { !probe_inside_other } else { probe_inside_other },
    }
}

/// Keep predicate for a directed edge on the subject (`on_subject`) or the
/// clip polygon, given whether a probe just past the edge's start lies
/// inside the other polygon.
pub fn gh_keep(op: GhOp, on_subject: bool, probe_inside_other: bool) -> (r: bool)
    ensures
        r == keeps_edge(op, on_subject, probe_inside_other),
{
    match op {
        GhOp::Intersect => probe_inside_other,
        GhOp::Union => !probe_inside_other,
        GhOp::Subtract => {
            if on_subject {
                !probe_inside_other
            } else {
                probe_inside_other
            }
        }
    }
}


/// Which input outlines form the result of a boolean operation whose
/// boundaries do not cross.
#[derive(PartialEq, Eq, Structural, Clone, Copy, Debug)]
pub enum ContainOutcome {
    Nothing,
    SubjectOnly,
    ClipOnly,
    Both,
}

/// When the boundaries do not cross, containment decides: an intersection
/// is the inner shape (nothing if neither holds the other); a union is the
/// outer shape (both if neither holds the other); a subtraction leaves
/// nothing when the subject lies inside the clip, else the subject.
pub open spec fn containment_spec(op: GhOp, sub_in_clip: bool, clip_in_sub: bool) -> ContainOutcome {
    match op {
        GhOp::Intersect => if sub_in_clip { ContainOutcome::SubjectOnly } else if clip_in_sub { ContainOutcome::ClipOnly } else { ContainOutcome::Nothing },
        GhOp::Union => if sub_in_clip { ContainOutcome::ClipOnly } else if clip_in_sub { ContainOutcome::SubjectOnly } else { ContainOutcome::Both },
        GhOp::Subtract => if sub_in_clip { ContainOutcome::Nothing } else { ContainOutcome::SubjectOnly },
    }
}

/// The result of `op` when the boundaries do not cross, from whether the
/// subject lies inside the clip and the clip inside the subject.
pub fn containment_result(op: GhOp, sub_in_clip: bool, clip_in_sub: bool) -> (r: ContainOutcome)
    ensures
        r == containment_spec(op, sub_in_clip, clip_in_sub),
{
    match op {
        GhOp::Intersect => {
            if sub_in_clip {
                ContainOutcome::SubjectOnly
            } else if clip_in_sub {
                ContainOutcome::ClipOnly
            } else {
                ContainOutcome::Nothing
            }
        },
        GhOp::Union => {
            if sub_in_clip {
                ContainOutcome::ClipOnly
            } else if clip_in_sub {
                ContainOutcome::SubjectOnly
            } else {
                ContainOutcome::Both
            }
        },
        GhOp::Subtract => {
            if sub_in_clip {
                ContainOutcome::Nothing
            } else {
                ContainOutcome::SubjectOnly
            }
        },
    }
}


/// A node of one polygon's ring in the edge-tracing clipper: a vertex or
/// a crossing, and the index of the same crossing in the other ring.
#[derive(PartialEq, Eq, Structural, Clone, Copy, Debug)]
pub struct RingNode {
    pub crossing: bool,
    pub partner: Option<usize>,
}

/// The walk's inputs: both rings, which subject crossings are entries into
/// the clip, and for each node the two probes taken when the walk arrives
/// there and could turn onto the other ring (toward the partner's next
/// node, toward its previous node): whether a point just along that edge
/// lies inside the ring the walk arrived on.
pub struct GhInput {
    pub s: Seq<RingNode>,
    pub c: Seq<RingNode>,
    pub entry: Seq<bool>,
    pub ps: Seq<(bool, bool)>,
    pub pc: Seq<(bool, bool)>,
    pub op: GhOp,
}

/// The walk in progress: crossings used on each ring, the ring it is on,
/// the node it stands on, its direction, and the nodes collected so far
/// (ring flag: `true` for the subject; index).
pub struct WalkState {
    pub vs: Seq<bool>,
    pub vc: Seq<bool>,
    pub on_s: bool,
    pub idx: int,
    pub fwd: bool,
    pub ring: Seq<(bool, usize)>,
}

/// The step budget of one walk.
pub open spec fn walk_budget(g: GhInput) -> nat {
    4 * (g.s.len() + g.c.len()) + 8
}

/// The next index around a ring of `len` nodes.
pub open spec fn ring_next(idx: int, fwd: bool, len: int) -> int {
    if fwd { if idx + 1 == len { 0 } else { idx + 1 } } else { if idx == 0 { len - 1 } else { idx - 1 } }
}

/// One step of the walk started at subject node `start`: move to the next
/// node; the ring is closed on coming back to `start` (or to its partner on
/// the clip); an unused crossing is used up on both rings and, where the
/// first direction along the other ring that `keeps_edge` accepts exists,
/// the walk turns onto it; otherwise the walk goes on. `Some(closed)`
/// ends the walk.
pub open spec fn walk_step(g: GhInput, start: int, st: WalkState) -> (WalkState, Option<bool>) {
    let len = if st.on_s { g.s.len() as int } else { g.c.len() as int };
    let nxt = ring_next(st.idx, st.fwd, len);
    if st.on_s && nxt == start {
        (st, Some(true))
    } else {
        let n = if st.on_s { g.s[nxt] } else { g.c[nxt] };
        let seen = if st.on_s { st.vs[nxt] } else { st.vc[nxt] };
        let ring1 = st.ring.push((st.on_s, nxt as usize));
        if !st.on_s && n.partner == Some(start as usize) {
            (WalkState { ring: ring1, ..st }, Some(true))
        } else if n.crossing && !seen {
            let vs1 = if st.on_s { st.vs.update(nxt, true) } else {
                match n.partner { Some(o) => st.vs.update(o as int, true), None => st.vs }
            };
            let vc1 = if st.on_s {
                match n.partner { Some(o) => st.vc.update(o as int, true), None => st.vc }
            } else { st.vc.update(nxt, true) };
            match n.partner {
                Some(o) => {
                    let pr = if st.on_s { g.ps[nxt] } else { g.pc[nxt] };
                    if keeps_edge(g.op, !st.on_s, pr.0) {
                        (WalkState { vs: vs1, vc: vc1, on_s: !st.on_s, idx: o as int, fwd: true, ring: ring1 }, None)
                    } else if keeps_edge(g.op, !st.on_s, pr.1) {
                        (WalkState { vs: vs1, vc: vc1, on_s: !st.on_s, idx: o as int, fwd: false, ring: ring1 }, None)
                    } else {
                        (WalkState { vs: vs1, vc: vc1, idx: nxt, ring: ring1, ..st }, None)
                    }
                },
                None => (WalkState { vs: vs1, vc: vc1, idx: nxt, ring: ring1, ..st }, None),
            }
        } else {
            (WalkState { idx: nxt, ring: ring1, ..st }, None)
        }
    }
}

/// The walk run for at most `budget` steps: its final state and whether
/// it closed its ring (running out of steps leaves it open).
pub open spec fn walk(g: GhInput, start: int, st: WalkState, budget: nat) -> (WalkState, bool)
    decreases budget,
{
    if budget == 0 {
        (st, false)
    } else {
        let r = walk_step(g, start, st);
        match r.1 {
            Some(closed) => (r.0, closed),
            None => walk(g, start, r.0, (budget - 1) as nat),
        }
    }
}

/// Whether a walk may start at subject node `i`: an unused crossing that
/// is an entry for an intersection and an exit otherwise.
pub open spec fn walk_starts(g: GhInput, vs: Seq<bool>, i: int) -> bool {
    g.s[i].crossing && !vs[i] && g.entry[i] == (g.op == GhOp::Intersect)
}

/// The closed rings found by walks started at subject nodes `start` and
/// after, in order, with the crossings `vs`, `vc` already used and the
/// rings `rings` found before.
pub open spec fn gh_from(g: GhInput, start: int, vs: Seq<bool>, vc: Seq<bool>, rings: Seq<Seq<(bool, usize)>>) -> Seq<Seq<(bool, usize)>>
    decreases g.s.len() - start,
{
    if start >= g.s.len() || start < 0 {
        rings
    } else if !walk_starts(g, vs, start) {
        gh_from(g, start + 1, vs, vc, rings)
    } else {
        let vs1 = vs.update(start, true);
        let vc1 = match g.s[start].partner { Some(o) => vc.update(o as int, true), None => vc };
        let init = WalkState { vs: vs1, vc: vc1, on_s: true, idx: start, fwd: true, ring: seq![(true, start as usize)] };
        let w = walk(g, start, init, walk_budget(g));
        gh_from(g, start + 1, w.0.vs, w.0.vc, if w.1 { rings.push(w.0.ring) } else { rings })
    }
}

/// The rings of a Greiner–Hormann boolean operation, as node references.
pub open spec fn gh_rings(g: GhInput) -> Seq<Seq<(bool, usize)>> {
    gh_from(g, 0, Seq::new(g.s.len(), |i: int| false), Seq::new(g.c.len(), |i: int| false), Seq::empty())
}

/// The partners of each ring lie in the other ring.
pub open spec fn partners_in_range(s: Seq<RingNode>, c: Seq<RingNode>) -> bool {
    &&& forall|i: int| 0 <= i < s.len() ==> ((#[trigger] s[i]).partner matches Some(o) ==> o < c.len())
    &&& forall|j: int| 0 <= j < c.len() ==> ((#[trigger] c[j]).partner matches Some(o) ==> o < s.len())
}


/// The node lists of collected rings.
pub open spec fn ring_views(v: Seq<Vec<(bool, usize)>>) -> Seq<Seq<(bool, usize)>> {
    v.map_values(|r: Vec<(bool, usize)>| r@)
}

/// The inputs as the walk's specification takes them.
pub open spec fn gh_input(subject: Seq<RingNode>, clip: Seq<RingNode>, entry: Seq<bool>, probe_s: Seq<(bool, bool)>, probe_c: Seq<(bool, bool)>, op: GhOp) -> GhInput {
    GhInput { s: subject, c: clip, entry, ps: probe_s, pc: probe_c, op }
}

/// Whether the inputs fit together: partners in range and one table entry
/// per node.
pub open spec fn gh_input_ok(g: GhInput) -> bool {
    &&& partners_in_range(g.s, g.c)
    &&& g.entry.len() == g.s.len()
    &&& g.ps.len() == g.s.len()
    &&& g.pc.len() == g.c.len()
    &&& 4 * (g.s.len() + g.c.len()) + 8 <= usize::MAX
}

fn walk_from(subject: &Vec<RingNode>, clip: &Vec<RingNode>, probe_s: &Vec<(bool, bool)>, probe_c: &Vec<(bool, bool)>, op: GhOp,
    Ghost(g): Ghost<GhInput>, start: usize, vs: &mut Vec<bool>, vc: &mut Vec<bool>, ring: &mut Vec<(bool, usize)>) -> (closed: bool)
    requires
        gh_input_ok(g),
        g.s == subject@, g.c == clip@, g.ps == probe_s@, g.pc == probe_c@, g.op == op,
        start < subject@.len(),
        old(vs)@.len() == subject@.len(),
        old(vc)@.len() == clip@.len(),
    ensures
        ({
            let w = walk(g, start as int, WalkState { vs: old(vs)@, vc: old(vc)@, on_s: true, idx: start as int, fwd: true, ring: old(ring)@ }, walk_budget(g));
            &&& final(vs)@ == w.0.vs
            &&& final(vc)@ == w.0.vc
            &&& final(ring)@ == w.0.ring
            &&& closed == w.1
        }),
        final(vs)@.len() == old(vs)@.len(),
        final(vc)@.len() == old(vc)@.len(),
{
    let ns = subject.len();
    let nc = clip.len();
    let limit = 4 * (ns + nc) + 8;
    let ghost init = WalkState { vs: vs@, vc: vc@, on_s: true, idx: start as int, fwd: true, ring: ring@ };
    let ghost target = walk(g, start as int, init, walk_budget(g));
    let mut guard: usize = 0;
    let mut on_s = true;
    let mut idx = start;
    let mut fwd = true;
    loop
        invariant
            gh_input_ok(g),
            g.s == subject@, g.c == clip@, g.ps == probe_s@, g.pc == probe_c@, g.op == op,
            ns == subject@.len(), nc == clip@.len(),
            limit == walk_budget(g),
            start < ns,
            guard <= limit,
            vs@.len() == ns,
            vc@.len() == nc,
            idx < (if on_s { ns } else { nc }),
            old(vs)@.len() == ns,
            old(vc)@.len() == nc,
            init == (WalkState { vs: old(vs)@, vc: old(vc)@, on_s: true, idx: start as int, fwd: true, ring: old(ring)@ }),
            target == walk(g, start as int, init, walk_budget(g)),
            target == walk(g, start as int, WalkState { vs: vs@, vc: vc@, on_s, idx: idx as int, fwd, ring: ring@ }, (limit - guard) as nat),
        decreases limit - guard,
    {
        let ghost st = WalkState { vs: vs@, vc: vc@, on_s, idx: idx as int, fwd, ring: ring@ };
        if guard == limit {
            assert(walk(g, start as int, st, 0) == (st, false));
            return false;
        }
        let ghost step = walk_step(g, start as int, st);
        assert(walk(g, start as int, st, (limit - guard) as nat) == match step.1 {
            Some(c) => (step.0, c),
            None => walk(g, start as int, step.0, (limit - guard - 1) as nat),
        });
        guard = guard + 1;
        let len = if on_s { ns } else { nc };
        let nxt = if fwd { if idx + 1 == len { 0 } else { idx + 1 } } else { if idx == 0 { len - 1 } else { idx - 1 } };
        assert(nxt == ring_next(idx as int, fwd, len as int));
        if on_s && nxt == start {
            assert(step == (st, Some(true)));
            return true;
        }
        let n = if on_s { subject[nxt] } else { clip[nxt] };
        let seen = if on_s { vs[nxt] } else { vc[nxt] };
        ring.push((on_s, nxt));
        if !on_s && n.partner == Some(start) {
            return true;
        }
        if n.crossing && !seen {
            if on_s {
                vs.set(nxt, true);
                if let Some(o) = n.partner {
                    vc.set(o, true);
                }
            } else {
                vc.set(nxt, true);
                if let Some(o) = n.partner {
                    vs.set(o, true);
                }
            }
            match n.partner {
                Some(o) => {
                    let pr = if on_s { probe_s[nxt] } else { probe_c[nxt] };
                    if gh_keep(op, !on_s, pr.0) {
                        on_s = !on_s;
                        idx = o;
                        fwd = true;
                    } else if gh_keep(op, !on_s, pr.1) {
                        on_s = !on_s;
                        idx = o;
                        fwd = false;
                    } else {
                        idx = nxt;
                    }
                },
                None => {
                    idx = nxt;
                },
            }
        } else {
            idx = nxt;
        }
    }
}

/// The Greiner–Hormann walk over two crossing-linked rings: from each
/// unused subject crossing that is an entry (for an intersection) or an
/// exit (otherwise), follow the rings, turning onto the other ring at
/// unused crossings in the direction that `keeps_edge` accepts, until the
/// start is reached again; the closed rings, as node references
/// (`true` for the subject, index), in the order found.
pub fn gh_walk(subject: &Vec<RingNode>, clip: &Vec<RingNode>, entry: &Vec<bool>, probe_s: &Vec<(bool, bool)>,
    probe_c: &Vec<(bool, bool)>, op: GhOp) -> (rings: Vec<Vec<(bool, usize)>>)
    requires
        gh_input_ok(gh_input(subject@, clip@, entry@, probe_s@, probe_c@, op)),
    ensures
        ring_views(rings@) == gh_rings(gh_input(subject@, clip@, entry@, probe_s@, probe_c@, op)),
{
    let ghost g = gh_input(subject@, clip@, entry@, probe_s@, probe_c@, op);
    let ns = subject.len();
    let nc = clip.len();
    let mut vs: Vec<bool> = Vec::new();
    let mut i: usize = 0;
    while i < ns
        invariant
            i <= ns,
            vs@ =~= Seq::new(i as nat, |k: int| false),
        decreases ns - i,
    {
        vs.push(false);
        i += 1;
    }
    let mut vc: Vec<bool> = Vec::new();
    let mut j: usize = 0;
    while j < nc
        invariant
            j <= nc,
            vc@ =~= Seq::new(j as nat, |k: int| false),
        decreases nc - j,
    {
        vc.push(false);
        j += 1;
    }
    let mut rings: Vec<Vec<(bool, usize)>> = Vec::new();
    let ghost target = gh_rings(g);
    assert(ring_views(rings@) =~= Seq::<Seq<(bool, usize)>>::empty());
    let want_entry = match op {
        GhOp::Intersect => true,
        _ => false,
    };
    let mut start: usize = 0;
    while start < ns
        invariant
            gh_input_ok(g),
            g == gh_input(subject@, clip@, entry@, probe_s@, probe_c@, op),
            ns == subject@.len(), nc == clip@.len(),
            want_entry == (op == GhOp::Intersect),
            start <= ns,
            vs@.len() == ns,
            vc@.len() == nc,
            target == gh_from(g, start as int, vs@, vc@, ring_views(rings@)),
        decreases ns - start,
    {
        let node = subject[start];
        if !node.crossing || vs[start] || entry[start] != want_entry {
            start += 1;
            continue;
        }
        vs.set(start, true);
        if let Some(o) = node.partner {
            vc.set(o, true);
        }
        let mut ring: Vec<(bool, usize)> = Vec::new();
        ring.push((true, start));
        assert(ring@ =~= seq![(true, start)]);
        let closed = walk_from(subject, clip, probe_s, probe_c, op, Ghost(g), start, &mut vs, &mut vc, &mut ring);
        if closed {
            let ghost before = ring_views(rings@);
            rings.push(ring);
            assert(ring_views(rings@) =~= before.push(ring@));
        }
        start += 1;
    }
    rings
}


/// The results of one round joined in order.
pub open spec fn joined_results<Pt>(rs: Seq<Vec<Vec<Pt>>>) -> Seq<Vec<Pt>>
    decreases rs.len(),
{
    if rs.len() == 0 { Seq::empty() } else { joined_results(rs.drop_last()) + rs.last()@ }
}

/// One round of a pathfinder operation: every current outline is combined
/// with the next shape by `combine`, and the results are joined in order.
pub open spec fn round_ok<Pt, F: Fn(&Vec<Pt>, &Vec<Pt>) -> Vec<Vec<Pt>>>(cur: Seq<Vec<Pt>>, clip: Vec<Pt>, next: Seq<Vec<Pt>>, combine: F) -> bool {
    exists|rs: Seq<Vec<Vec<Pt>>>| {
        &&& rs.len() == cur.len()
        &&& forall|i: int| 0 <= i < cur.len() ==> combine.ensures((&cur[i], &clip), #[trigger] rs[i])
        &&& #[trigger] joined_results(rs) == next
    }
}

/// `out` is what the rounds with shapes `k` and after make of the outlines
/// `cur`.
pub open spec fn rounds_from<Pt, F: Fn(&Vec<Pt>, &Vec<Pt>) -> Vec<Vec<Pt>>>(shapes: Seq<Vec<Pt>>, k: int, cur: Seq<Vec<Pt>>, out: Seq<Vec<Pt>>, combine: F) -> bool
    decreases shapes.len() - k,
{
    if k >= shapes.len() {
        out == cur
    } else {
        exists|next: Seq<Vec<Pt>>| #[trigger] round_ok(cur, shapes[k], next, combine) && rounds_from(shapes, k + 1, next, out, combine)
    }
}

/// A pathfinder operation over the selected shapes' outlines, in order:
/// the first shape is combined with the second, each result with the
/// third, and so on, by `combine` (the two-shape boolean operation).
/// Nothing comes of fewer than two shapes or of an empty result.
pub fn pathfinder_outlines<Pt, F: Fn(&Vec<Pt>, &Vec<Pt>) -> Vec<Vec<Pt>>>(shapes: Vec<Vec<Pt>>, combine: F) -> (r: Option<Vec<Vec<Pt>>>)
    requires
        forall|a: Vec<Pt>, b: Vec<Pt>| #[trigger] combine.requires((&a, &b)),
    ensures
        shapes@.len() < 2 ==> r is None,
        shapes@.len() >= 2 ==> exists|out: Seq<Vec<Pt>>| #[trigger] rounds_from(shapes@, 1, seq![shapes@[0]], out, combine)
            && r == (if out.len() == 0 { None } else { Some(r->0) }) && (r matches Some(v) ==> v@ == out),
{
    if shapes.len() < 2 {
        return None;
    }
    let ghost all = shapes@;
    let mut rest = shapes;
    let first = rest.remove(0);
    assert(rest@ =~= all.subrange(1, all.len() as int));
    let mut cur: Vec<Vec<Pt>> = Vec::new();
    cur.push(first);
    assert(cur@ =~= seq![all[0]]);
    let n = rest.len();
    let mut k: usize = 0;
    while k < n
        invariant
            n == rest@.len(),
            all.len() == n + 1,
            rest@ == all.subrange(1, all.len() as int),
            k <= n,
            forall|a: Vec<Pt>, b: Vec<Pt>| #[trigger] combine.requires((&a, &b)),
            forall|o: Seq<Vec<Pt>>| #[trigger] rounds_from(all, k + 1, cur@, o, combine)
                ==> rounds_from(all, 1, seq![all[0]], o, combine),
        decreases n - k,
    {
        let ghost c0 = cur@;
        let clip = &rest[k];
        assert(*clip == all[k + 1]);
        let mut next: Vec<Vec<Pt>> = Vec::new();
        let ghost mut rs: Seq<Vec<Vec<Pt>>> = Seq::empty();
        let m = cur.len();
        let mut i: usize = 0;
        while i < m
            invariant
                m == cur@.len(),
                cur@ == c0,
                i <= m,
                *clip == all[k + 1],
                forall|a: Vec<Pt>, b: Vec<Pt>| #[trigger] combine.requires((&a, &b)),
                rs.len() == i,
                forall|j: int| 0 <= j < i ==> combine.ensures((&c0[j], clip), #[trigger] rs[j]),
                joined_results(rs) == next@,
            decreases m - i,
        {
            let mut res = combine(&cur[i], clip);
            proof {
                let rs2 = rs.push(res);
                assert(rs2.drop_last() =~= rs);
                rs = rs2;
            }
            next.append(&mut res);
            i += 1;
        }
        assert(round_ok(c0, all[k + 1], next@, combine));
        let ghost k0 = k;
        cur = next;
        k += 1;
        proof {
            assert forall|o: Seq<Vec<Pt>>| #[trigger] rounds_from(all, k + 1, cur@, o, combine)
                implies rounds_from(all, 1, seq![all[0]], o, combine) by {
                assert(k0 + 1 < all.len());
                assert(round_ok(c0, all[k0 + 1], cur@, combine));
                assert(rounds_from(all, k0 + 1, c0, o, combine));
            }
        }
    }
    assert(rounds_from(all, n + 1, cur@, cur@, combine));
    if cur.len() == 0 {
        None
    } else {
        Some(cur)
    }
}

} // verus!

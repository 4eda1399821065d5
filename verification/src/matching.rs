//! Pairing the objects of two documents for a semantic comparison: by
//! explicit id first, then by geometric similarity. The similarity
//! distances are measured by the caller (they are floating point) and
//! handed over as the bit patterns of non-negative `f64` values.
use vstd::prelude::*;
use vstd::set_lib::{lemma_int_range, set_int_range};
use crate::text::{chars_of, str_eq};

verus! {

/// A top-level object of a document as the comparison sees it, in stacking
/// order over all layers.
pub struct DiffEntry {
    pub layer: String,
    pub id: String,
    pub name: String,
    pub object_type: String,
}

/// Bit pattern of `f64` infinity; larger non-negative patterns are NaN.
pub const F64_INFINITY_BITS: u64 = 0x7ff0_0000_0000_0000;
/// Bit pattern of 0.01, below which a distance counts as an exact match.
pub const EXACT_DISTANCE_BITS: u64 = 0x3f84_7ae1_47ae_147b;
/// Bit pattern of 300.0, the largest distance (exclusive) still paired.
pub const MAX_DISTANCE_BITS: u64 = 0x4072_c000_0000_0000;

/// `x < y` on non-negative `f64` values given by their bit patterns
/// (false when either is NaN).
pub open spec fn float_lt(x: u64, y: u64) -> bool {
    x <= F64_INFINITY_BITS && y <= F64_INFINITY_BITS && x < y
}

fn lt_bits(x: u64, y: u64) -> (r: bool)
    ensures
        r == float_lt(x, y),
{
    x <= F64_INFINITY_BITS && y <= F64_INFINITY_BITS && x < y
}

/// An id given by the user or a source file, as opposed to an empty or
/// generated (`auto_…`) one.
pub open spec fn explicit_id(id: Seq<char>) -> bool {
    id.len() > 0 && !(id.len() >= 5 && id.take(5) == seq!['a', 'u', 't', 'o', '_'])
}

/// Whether `id` is an explicit id.
pub fn is_explicit_id(id: &str) -> (r: bool)
    ensures
        r == explicit_id(id@),
{
    let cs = chars_of(id);
    if cs.len() == 0 {
        return false;
    }
    if cs.len() < 5 {
        return true;
    }
    let auto = cs[0] == 'a' && cs[1] == 'u' && cs[2] == 't' && cs[3] == 'o' && cs[4] == '_';
    assert(auto == (cs@.take(5) =~= seq!['a', 'u', 't', 'o', '_']));
    !auto
}

/// The ids of the entries.
pub open spec fn entry_ids(es: Seq<DiffEntry>) -> Seq<Seq<char>> {
    es.map_values(|e: DiffEntry| e.id@)
}

/// Entry `i` carries an explicit id that no later entry repeats (an id
/// lookup keeps the last entry of each id).
pub open spec fn kept(ids: Seq<Seq<char>>, i: int) -> bool {
    explicit_id(ids[i]) && forall|j: int| i < j < ids.len() ==> ids[j] != ids[i]
}

/// The kept entry of `ids` with the given id, if any.
pub open spec fn kept_with(ids: Seq<Seq<char>>, id: Seq<char>) -> Option<int> {
    if exists|j: int| 0 <= j < ids.len() && kept(ids, j) && ids[j] == id {
        Some(choose|j: int| 0 <= j < ids.len() && kept(ids, j) && ids[j] == id)
    } else {
        None
    }
}

pub proof fn lemma_kept_unique(ids: Seq<Seq<char>>, i: int, j: int)
    requires
        0 <= i < ids.len(),
        0 <= j < ids.len(),
        kept(ids, i),
        kept(ids, j),
        ids[i] == ids[j],
    ensures
        i == j,
{
}

fn kept_flags(es: &Vec<DiffEntry>) -> (r: Vec<bool>)
    ensures
        r@.len() == es@.len(),
        forall|i: int| 0 <= i < es@.len() ==> r@[i] == kept(entry_ids(es@), i),
{
    let n = es.len();
    let ghost ids = entry_ids(es@);
    let mut r: Vec<bool> = Vec::new();
    let mut i: usize = 0;
    while i < n
        invariant
            i <= n,
            n == es@.len(),
            ids == entry_ids(es@),
            r@.len() == i,
            forall|k: int| 0 <= k < i ==> r@[k] == kept(ids, k),
        decreases n - i,
    {
        let mut keep = is_explicit_id(es[i].id.as_str());
        assert(ids[i as int] == es@[i as int].id@);
        let mut j: usize = i + 1;
        while keep && j < n
            invariant
                i < j <= n,
                n == es@.len(),
                ids == entry_ids(es@),
                keep ==> explicit_id(ids[i as int]) && forall|q: int| i < q < j ==> ids[q] != ids[i as int],
                !keep ==> !kept(ids, i as int),
            decreases n - j,
        {
            assert(ids[j as int] == es@[j as int].id@);
            if str_eq(es[j].id.as_str(), es[i].id.as_str()) {
                keep = false;
            }
            j += 1;
        }
        r.push(keep);
        i += 1;
    }
    r
}

/// Position of the kept entry of `es` with the same id as `id`.
fn find_kept(es: &Vec<DiffEntry>, flags: &Vec<bool>, id: &str) -> (r: Option<usize>)
    requires
        flags@.len() == es@.len(),
        forall|i: int| 0 <= i < es@.len() ==> flags@[i] == kept(entry_ids(es@), i),
    ensures
        match r {
            Some(j) => j < es@.len() && kept(entry_ids(es@), j as int) && es@[j as int].id@ == id@,
            None => forall|j: int| 0 <= j < es@.len() && kept(entry_ids(es@), j) ==> es@[j].id@ != id@,
        },
{
    let n = es.len();
    let mut j: usize = 0;
    while j < n
        invariant
            j <= n,
            n == es@.len(),
            flags@.len() == n,
            forall|i: int| 0 <= i < es@.len() ==> flags@[i] == kept(entry_ids(es@), i),
            forall|q: int| 0 <= q < j && kept(entry_ids(es@), q) ==> es@[q].id@ != id@,
        decreases n - j,
    {
        if flags[j] && str_eq(es[j].id.as_str(), id) {
            return Some(j);
        }
        j += 1;
    }
    None
}

/// The indices below `n` that satisfy `p`, in increasing order.
pub open spec fn indices_where(n: nat, p: spec_fn(usize) -> bool) -> Seq<usize>
    decreases n,
{
    if n == 0 {
        Seq::empty()
    } else {
        let r = indices_where((n - 1) as nat, p);
        if p((n - 1) as usize) { r.push((n - 1) as usize) } else { r }
    }
}

/// Pairs of kept entries with equal ids, in the order of `a`.
pub open spec fn id_pairs(ia: Seq<Seq<char>>, ib: Seq<Seq<char>>, n: nat) -> Seq<(usize, usize)>
    decreases n,
{
    if n == 0 {
        Seq::empty()
    } else {
        let r = id_pairs(ia, ib, (n - 1) as nat);
        let i = (n - 1) as int;
        if kept(ia, i) && kept_with(ib, ia[i]) is Some {
            r.push((i as usize, kept_with(ib, ia[i])->0 as usize))
        } else {
            r
        }
    }
}

/// Entries of one side left for the similarity matching: those without an
/// explicit id, then the kept ones whose id the other side lacks.
pub open spec fn leftovers(mine: Seq<Seq<char>>, other: Seq<Seq<char>>) -> Seq<usize> {
    indices_where(mine.len(), |i: usize| !explicit_id(mine[i as int]))
        + indices_where(mine.len(), |i: usize| kept(mine, i as int) && kept_with(other, mine[i as int]) is None)
}

proof fn lemma_indices_bound(n: nat, p: spec_fn(usize) -> bool)
    ensures
        indices_where(n, p).len() <= n,
        forall|k: int| 0 <= k < indices_where(n, p).len() ==> (#[trigger] indices_where(n, p)[k]) < n,
    decreases n,
{
    if n > 0 {
        lemma_indices_bound((n - 1) as nat, p);
    }
}

fn collect_where_loose(es: &Vec<DiffEntry>) -> (r: Vec<usize>)
    ensures
        r@ == indices_where(es@.len(), |i: usize| !explicit_id(entry_ids(es@)[i as int])),
{
    let n = es.len();
    let ghost p = |i: usize| !explicit_id(entry_ids(es@)[i as int]);
    let mut r: Vec<usize> = Vec::new();
    let mut i: usize = 0;
    while i < n
        invariant
            i <= n,
            n == es@.len(),
            p == (|i: usize| !explicit_id(entry_ids(es@)[i as int])),
            r@ == indices_where(i as nat, p),
        decreases n - i,
    {
        assert(entry_ids(es@)[i as int] == es@[i as int].id@);
        if !is_explicit_id(es[i].id.as_str()) {
            r.push(i);
        }
        i += 1;
    }
    r
}

/// Kept entries of `mine` whose id `other` has no kept entry for.
fn collect_orphans(mine: &Vec<DiffEntry>, mine_kept: &Vec<bool>, other: &Vec<DiffEntry>, other_kept: &Vec<bool>) -> (r: Vec<usize>)
    requires
        mine_kept@.len() == mine@.len(),
        forall|i: int| 0 <= i < mine@.len() ==> mine_kept@[i] == kept(entry_ids(mine@), i),
        other_kept@.len() == other@.len(),
        forall|i: int| 0 <= i < other@.len() ==> other_kept@[i] == kept(entry_ids(other@), i),
    ensures
        r@ == indices_where(mine@.len(), |i: usize| kept(entry_ids(mine@), i as int)
            && kept_with(entry_ids(other@), entry_ids(mine@)[i as int]) is None),
{
    let n = mine.len();
    let ghost im = entry_ids(mine@);
    let ghost io = entry_ids(other@);
    let ghost p = |i: usize| kept(im, i as int) && kept_with(io, im[i as int]) is None;
    let mut r: Vec<usize> = Vec::new();
    let mut i: usize = 0;
    while i < n
        invariant
            i <= n,
            n == mine@.len(),
            im == entry_ids(mine@),
            io == entry_ids(other@),
            mine_kept@.len() == mine@.len(),
            forall|k: int| 0 <= k < mine@.len() ==> mine_kept@[k] == kept(im, k),
            other_kept@.len() == other@.len(),
            forall|k: int| 0 <= k < other@.len() ==> other_kept@[k] == kept(io, k),
            p == (|i: usize| kept(im, i as int) && kept_with(io, im[i as int]) is None),
            r@ == indices_where(i as nat, p),
        decreases n - i,
    {
        if mine_kept[i] {
            let found = find_kept(other, other_kept, mine[i].id.as_str());
            proof {
                assert(im[i as int] == mine@[i as int].id@);
                match found {
                    Some(j) => {
                        assert(io[j as int] == other@[j as int].id@);
                        assert(kept_with(io, im[i as int]) is Some);
                    },
                    None => {
                        assert forall|j: int| 0 <= j < io.len() && kept(io, j) implies io[j] != im[i as int] by {
                            assert(io[j] == other@[j].id@);
                        }
                    },
                }
            }
            if found.is_none() {
                r.push(i);
            }
        }
        i += 1;
    }
    r
}

fn collect_id_pairs(a: &Vec<DiffEntry>, a_kept: &Vec<bool>, b: &Vec<DiffEntry>, b_kept: &Vec<bool>) -> (r: Vec<(usize, usize)>)
    requires
        a_kept@.len() == a@.len(),
        forall|i: int| 0 <= i < a@.len() ==> a_kept@[i] == kept(entry_ids(a@), i),
        b_kept@.len() == b@.len(),
        forall|i: int| 0 <= i < b@.len() ==> b_kept@[i] == kept(entry_ids(b@), i),
    ensures
        r@ == id_pairs(entry_ids(a@), entry_ids(b@), a@.len()),
{
    let n = a.len();
    let ghost ia = entry_ids(a@);
    let ghost ib = entry_ids(b@);
    let mut r: Vec<(usize, usize)> = Vec::new();
    let mut i: usize = 0;
    while i < n
        invariant
            i <= n,
            n == a@.len(),
            ia == entry_ids(a@),
            ib == entry_ids(b@),
            a_kept@.len() == a@.len(),
            forall|k: int| 0 <= k < a@.len() ==> a_kept@[k] == kept(ia, k),
            b_kept@.len() == b@.len(),
            forall|k: int| 0 <= k < b@.len() ==> b_kept@[k] == kept(ib, k),
            r@ == id_pairs(ia, ib, i as nat),
        decreases n - i,
    {
        if a_kept[i] {
            let found = find_kept(b, b_kept, a[i].id.as_str());
            proof {
                assert(ia[i as int] == a@[i as int].id@);
            }
            match found {
                Some(j) => {
                    proof {
                        assert(ib[j as int] == b@[j as int].id@);
                        assert(kept_with(ib, ia[i as int]) is Some);
                        let c = kept_with(ib, ia[i as int])->0;
                        lemma_kept_unique(ib, j as int, c);
                    }
                    r.push((i, j));
                },
                None => {
                    proof {
                        assert forall|j: int| 0 <= j < ib.len() && kept(ib, j) implies ib[j] != ia[i as int] by {
                            assert(ib[j] == b@[j].id@);
                        }
                    }
                },
            }
        }
        i += 1;
    }
    r
}

/// The distance of `a[i]` to `b[j]` when the two are of the same type.
pub open spec fn fitness(a: Seq<DiffEntry>, b: Seq<DiffEntry>, sc: Seq<Seq<u64>>) -> spec_fn(usize, usize) -> Option<u64> {
    |i: usize, j: usize| if a[i as int].object_type@ == b[j as int].object_type@ { Some(sc[i as int][j as int]) } else { None }
}

/// The candidate at position `q` of `bu` is free and an exact match for `ai`.
pub open spec fn exact_for(fit: spec_fn(usize, usize) -> Option<u64>, ai: usize, bu: Seq<usize>, t: Seq<bool>, q: int) -> bool {
    !t[q] && (fit(ai, bu[q]) matches Some(s) && float_lt(s, EXACT_DISTANCE_BITS))
}

/// The first position below `q` of an exact match for `ai`.
pub open spec fn first_exact(fit: spec_fn(usize, usize) -> Option<u64>, ai: usize, bu: Seq<usize>, t: Seq<bool>, q: nat) -> Option<nat>
    decreases q,
{
    if q == 0 {
        None
    } else {
        match first_exact(fit, ai, bu, t, (q - 1) as nat) {
            Some(p) => Some(p),
            None => if exact_for(fit, ai, bu, t, q - 1) { Some((q - 1) as nat) } else { None },
        }
    }
}

/// The exact-match pass over the first `k` entries of `au`: the pairs
/// made, which candidates are taken, and the entries left over.
pub open spec fn run_exact(fit: spec_fn(usize, usize) -> Option<u64>, au: Seq<usize>, bu: Seq<usize>, t0: Seq<bool>, k: nat)
    -> (Seq<(usize, usize)>, Seq<bool>, Seq<usize>)
    decreases k,
{
    if k == 0 {
        (Seq::empty(), t0, Seq::empty())
    } else {
        let r = run_exact(fit, au, bu, t0, (k - 1) as nat);
        let ai = au[k - 1];
        match first_exact(fit, ai, bu, r.1, bu.len()) {
            Some(q) => (r.0.push((ai, bu[q as int])), r.1.update(q as int, true), r.2),
            None => (r.0, r.1, r.2.push(ai)),
        }
    }
}

/// The closest free candidate below `q` for `ai` (the first of equally
/// close ones), with its distance.
pub open spec fn best_upto(fit: spec_fn(usize, usize) -> Option<u64>, ai: usize, bu: Seq<usize>, t: Seq<bool>, q: nat) -> Option<(nat, u64)>
    decreases q,
{
    if q == 0 {
        None
    } else {
        let b = best_upto(fit, ai, bu, t, (q - 1) as nat);
        let p = (q - 1) as int;
        if !t[p] && fit(ai, bu[p]) is Some {
            let d = fit(ai, bu[p])->0;
            match b {
                None => Some((p as nat, d)),
                Some(bd) => if float_lt(d, bd.1) { Some((p as nat, d)) } else { b },
            }
        } else {
            b
        }
    }
}

/// The closest-match pass over the first `k` entries of `au`: the pairs
/// made (distance below 300), which candidates are taken, and the entries
/// left unpaired.
pub open spec fn run_best(fit: spec_fn(usize, usize) -> Option<u64>, au: Seq<usize>, bu: Seq<usize>, t0: Seq<bool>, k: nat)
    -> (Seq<(usize, usize)>, Seq<bool>, Seq<usize>)
    decreases k,
{
    if k == 0 {
        (Seq::empty(), t0, Seq::empty())
    } else {
        let r = run_best(fit, au, bu, t0, (k - 1) as nat);
        let ai = au[k - 1];
        match best_upto(fit, ai, bu, r.1, bu.len()) {
            Some(bd) => if float_lt(bd.1, MAX_DISTANCE_BITS) {
                (r.0.push((ai, bu[bd.0 as int])), r.1.update(bd.0 as int, true), r.2)
            } else {
                (r.0, r.1, r.2.push(ai))
            },
            None => (r.0, r.1, r.2.push(ai)),
        }
    }
}

/// The candidates below position `q` that were not taken, in order.
pub open spec fn untaken(bu: Seq<usize>, t: Seq<bool>, q: nat) -> Seq<usize>
    decreases q,
{
    if q == 0 {
        Seq::empty()
    } else {
        let r = untaken(bu, t, (q - 1) as nat);
        if !t[q - 1] { r.push(bu[q - 1]) } else { r }
    }
}

/// Whether the `a` and `b` entries are of the same type and, if so, their
/// distance.
fn fit_of(a: &Vec<DiffEntry>, b: &Vec<DiffEntry>, scores: &Vec<Vec<u64>>, i: usize, j: usize) -> (r: Option<u64>)
    requires
        i < a@.len(),
        j < b@.len(),
        scores@.len() == a@.len(),
        forall|k: int| 0 <= k < a@.len() ==> (#[trigger] scores@[k])@.len() == b@.len(),
    ensures
        r == fitness(a@, b@, scores@.map_values(|v: Vec<u64>| v@))(i, j),
{
    let ghost sc = scores@.map_values(|v: Vec<u64>| v@);
    assert(sc[i as int] == scores@[i as int]@);
    if str_eq(a[i].object_type.as_str(), b[j].object_type.as_str()) {
        Some(scores[i][j])
    } else {
        None
    }
}

proof fn lemma_first_exact_stable(fit: spec_fn(usize, usize) -> Option<u64>, ai: usize, bu: Seq<usize>, t: Seq<bool>, q1: nat, q2: nat)
    requires
        q1 <= q2,
        first_exact(fit, ai, bu, t, q1) is Some,
    ensures
        first_exact(fit, ai, bu, t, q2) == first_exact(fit, ai, bu, t, q1),
    decreases q2,
{
    if q2 > q1 {
        lemma_first_exact_stable(fit, ai, bu, t, q1, (q2 - 1) as nat);
    }
}

/// The entries of both sides that the pass may use are in range, and the
/// distance table covers them.
pub open spec fn table_ok(a: Seq<DiffEntry>, b: Seq<DiffEntry>, scores: Seq<Vec<u64>>, au: Seq<usize>, bu: Seq<usize>) -> bool {
    &&& scores.len() == a.len()
    &&& forall|k: int| 0 <= k < a.len() ==> (#[trigger] scores[k])@.len() == b.len()
    &&& forall|k: int| 0 <= k < au.len() ==> (#[trigger] au[k]) < a.len()
    &&& forall|k: int| 0 <= k < bu.len() ==> (#[trigger] bu[k]) < b.len()
}

fn exact_pass(a: &Vec<DiffEntry>, b: &Vec<DiffEntry>, scores: &Vec<Vec<u64>>, au: &Vec<usize>, bu: &Vec<usize>, taken: Vec<bool>)
    -> (r: (Vec<(usize, usize)>, Vec<bool>, Vec<usize>))
    requires
        table_ok(a@, b@, scores@, au@, bu@),
        taken@.len() == bu@.len(),
    ensures
        (r.0@, r.1@, r.2@) == run_exact(fitness(a@, b@, scores@.map_values(|v: Vec<u64>| v@)), au@, bu@, taken@, au@.len()),
        r.1@.len() == bu@.len(),
{
    let ghost fit = fitness(a@, b@, scores@.map_values(|v: Vec<u64>| v@));
    let ghost t0 = taken@;
    let mut pairs: Vec<(usize, usize)> = Vec::new();
    let mut taken = taken;
    let mut still: Vec<usize> = Vec::new();
    let n = au.len();
    let m = bu.len();
    let mut k: usize = 0;
    while k < n
        invariant
            k <= n,
            n == au@.len(),
            m == bu@.len(),
            table_ok(a@, b@, scores@, au@, bu@),
            fit == fitness(a@, b@, scores@.map_values(|v: Vec<u64>| v@)),
            taken@.len() == m,
            (pairs@, taken@, still@) == run_exact(fit, au@, bu@, t0, k as nat),
        decreases n - k,
    {
        let ai = au[k];
        let mut found: Option<usize> = None;
        let mut q: usize = 0;
        while q < m
            invariant_except_break
                found is None,
                first_exact(fit, ai, bu@, taken@, q as nat) is None,
            invariant
                q <= m,
                m == bu@.len(),
                taken@.len() == m,
                ai < a@.len(),
                table_ok(a@, b@, scores@, au@, bu@),
                fit == fitness(a@, b@, scores@.map_values(|v: Vec<u64>| v@)),
            ensures
                match found {
                    Some(p) => first_exact(fit, ai, bu@, taken@, m as nat) == Some(p as nat) && p < m,
                    None => first_exact(fit, ai, bu@, taken@, m as nat) is None,
                },
            decreases m - q,
        {
            let f = fit_of(a, b, scores, ai, bu[q]);
            if !taken[q] {
                if let Some(d) = f {
                    if lt_bits(d, EXACT_DISTANCE_BITS) {
                        found = Some(q);
                        proof {
                            assert(first_exact(fit, ai, bu@, taken@, (q + 1) as nat) == Some(q as nat));
                            lemma_first_exact_stable(fit, ai, bu@, taken@, (q + 1) as nat, m as nat);
                        }
                        break;
                    }
                }
            }
            q += 1;
        }
        match found {
            Some(p) => {
                pairs.push((ai, bu[p]));
                taken.set(p, true);
            },
            None => {
                still.push(ai);
            },
        }
        k += 1;
    }
    (pairs, taken, still)
}

fn best_pass(a: &Vec<DiffEntry>, b: &Vec<DiffEntry>, scores: &Vec<Vec<u64>>, au: &Vec<usize>, bu: &Vec<usize>, taken: Vec<bool>)
    -> (r: (Vec<(usize, usize)>, Vec<bool>, Vec<usize>))
    requires
        table_ok(a@, b@, scores@, au@, bu@),
        taken@.len() == bu@.len(),
    ensures
        (r.0@, r.1@, r.2@) == run_best(fitness(a@, b@, scores@.map_values(|v: Vec<u64>| v@)), au@, bu@, taken@, au@.len()),
        r.1@.len() == bu@.len(),
{
    let ghost fit = fitness(a@, b@, scores@.map_values(|v: Vec<u64>| v@));
    let ghost t0 = taken@;
    let mut pairs: Vec<(usize, usize)> = Vec::new();
    let mut taken = taken;
    let mut removed: Vec<usize> = Vec::new();
    let n = au.len();
    let m = bu.len();
    let mut k: usize = 0;
    while k < n
        invariant
            k <= n,
            n == au@.len(),
            m == bu@.len(),
            table_ok(a@, b@, scores@, au@, bu@),
            fit == fitness(a@, b@, scores@.map_values(|v: Vec<u64>| v@)),
            taken@.len() == m,
            (pairs@, taken@, removed@) == run_best(fit, au@, bu@, t0, k as nat),
        decreases n - k,
    {
        let ai = au[k];
        let mut best: Option<(usize, u64)> = None;
        let mut q: usize = 0;
        while q < m
            invariant
                q <= m,
                m == bu@.len(),
                taken@.len() == m,
                ai < a@.len(),
                table_ok(a@, b@, scores@, au@, bu@),
                fit == fitness(a@, b@, scores@.map_values(|v: Vec<u64>| v@)),
                match best {
                    Some(bd) => best_upto(fit, ai, bu@, taken@, q as nat) == Some((bd.0 as nat, bd.1)) && bd.0 < m,
                    None => best_upto(fit, ai, bu@, taken@, q as nat) is None,
                },
            decreases m - q,
        {
            let f = fit_of(a, b, scores, ai, bu[q]);
            if !taken[q] {
                if let Some(d) = f {
                    let better = match best {
                        None => true,
                        Some(bd) => lt_bits(d, bd.1),
                    };
                    if better {
                        best = Some((q, d));
                    }
                }
            }
            q += 1;
        }
        let mut paired = false;
        if let Some(bd) = best {
            if lt_bits(bd.1, MAX_DISTANCE_BITS) {
                pairs.push((ai, bu[bd.0]));
                taken.set(bd.0, true);
                paired = true;
            }
        }
        if !paired {
            removed.push(ai);
        }
        k += 1;
    }
    (pairs, taken, removed)
}

fn untaken_of(bu: &Vec<usize>, taken: &Vec<bool>) -> (r: Vec<usize>)
    requires
        taken@.len() == bu@.len(),
    ensures
        r@ == untaken(bu@, taken@, bu@.len()),
{
    let m = bu.len();
    let mut r: Vec<usize> = Vec::new();
    let mut q: usize = 0;
    while q < m
        invariant
            q <= m,
            m == bu@.len(),
            taken@.len() == m,
            r@ == untaken(bu@, taken@, q as nat),
        decreases m - q,
    {
        if !taken[q] {
            r.push(bu[q]);
        }
        q += 1;
    }
    r
}

/// The outcome of pairing: matched `(a, b)` entry indices, `a` entries
/// without a partner (removed) and `b` entries without one (added).
pub struct Matching {
    pub pairs: Vec<(usize, usize)>,
    pub removed: Vec<usize>,
    pub added: Vec<usize>,
}

/// The pairing of `a` with `b` given the distance table `sc`: kept entries
/// with equal explicit ids pair first; of the rest (entries without an
/// explicit id, then kept entries whose id the other side lacks), each `a`
/// entry in turn takes the first free `b` entry of its type closer than
/// 0.01; then each still unpaired one takes the closest free `b` entry of
/// its type if it is closer than 300. Duplicate explicit ids yield to
/// their last entry; the others are left out.
pub open spec fn pairing(a: Seq<DiffEntry>, b: Seq<DiffEntry>, sc: Seq<Seq<u64>>) -> (Seq<(usize, usize)>, Seq<usize>, Seq<usize>) {
    let ia = entry_ids(a);
    let ib = entry_ids(b);
    let au = leftovers(ia, ib);
    let bu = leftovers(ib, ia);
    let fit = fitness(a, b, sc);
    let t0 = Seq::new(bu.len(), |i: int| false);
    let ex = run_exact(fit, au, bu, t0, au.len());
    let be = run_best(fit, ex.2, bu, ex.1, ex.2.len());
    (id_pairs(ia, ib, a.len()) + ex.0 + be.0, be.2, untaken(bu, be.1, bu.len()))
}

proof fn lemma_run_exact_still(fit: spec_fn(usize, usize) -> Option<u64>, au: Seq<usize>, bu: Seq<usize>, t0: Seq<bool>, k: nat, n: nat)
    requires
        k <= au.len(),
        forall|i: int| 0 <= i < au.len() ==> (#[trigger] au[i]) < n,
    ensures
        forall|i: int| 0 <= i < run_exact(fit, au, bu, t0, k).2.len() ==> (#[trigger] run_exact(fit, au, bu, t0, k).2[i]) < n,
    decreases k,
{
    if k > 0 {
        lemma_run_exact_still(fit, au, bu, t0, (k - 1) as nat, n);
        let ai = au[k - 1];
        assert(ai < n);
        let r = run_exact(fit, au, bu, t0, (k - 1) as nat);
        let cur = run_exact(fit, au, bu, t0, k);
        assert(cur.2 == r.2 || cur.2 == r.2.push(ai));
        assert forall|i: int| 0 <= i < cur.2.len() implies (#[trigger] cur.2[i]) < n by {
            if i < r.2.len() {
                assert(cur.2[i] == r.2[i]);
            }
        }
    }
}

/// Two entries that a pair joins: of the same type, or kept entries with
/// the same explicit id.
pub open spec fn pair_ok(a: Seq<DiffEntry>, b: Seq<DiffEntry>, p: (usize, usize)) -> bool {
    (explicit_id(a[p.0 as int].id@) && a[p.0 as int].id@ == b[p.1 as int].id@)
        || a[p.0 as int].object_type@ == b[p.1 as int].object_type@
}

proof fn lemma_first_exact_fits(fit: spec_fn(usize, usize) -> Option<u64>, ai: usize, bu: Seq<usize>, t: Seq<bool>, q: nat)
    ensures
        first_exact(fit, ai, bu, t, q) matches Some(p) ==> p < q && fit(ai, bu[p as int]) is Some && !t[p as int],
    decreases q,
{
    if q > 0 {
        lemma_first_exact_fits(fit, ai, bu, t, (q - 1) as nat);
    }
}

proof fn lemma_best_upto_fits(fit: spec_fn(usize, usize) -> Option<u64>, ai: usize, bu: Seq<usize>, t: Seq<bool>, q: nat)
    ensures
        best_upto(fit, ai, bu, t, q) matches Some(bd) ==> bd.0 < q && fit(ai, bu[bd.0 as int]) is Some && !t[bd.0 as int],
    decreases q,
{
    if q > 0 {
        lemma_best_upto_fits(fit, ai, bu, t, (q - 1) as nat);
    }
}

proof fn lemma_run_exact_fits(fit: spec_fn(usize, usize) -> Option<u64>, au: Seq<usize>, bu: Seq<usize>, t0: Seq<bool>, k: nat)
    requires
        k <= au.len(),
    ensures
        forall|m: int| 0 <= m < run_exact(fit, au, bu, t0, k).0.len() ==>
            fit(#[trigger] run_exact(fit, au, bu, t0, k).0[m].0, run_exact(fit, au, bu, t0, k).0[m].1) is Some,
    decreases k,
{
    if k > 0 {
        lemma_run_exact_fits(fit, au, bu, t0, (k - 1) as nat);
        let r = run_exact(fit, au, bu, t0, (k - 1) as nat);
        let ai = au[k - 1];
        lemma_first_exact_fits(fit, ai, bu, r.1, bu.len());
        let cur = run_exact(fit, au, bu, t0, k);
        assert forall|m: int| 0 <= m < cur.0.len() implies fit(#[trigger] cur.0[m].0, cur.0[m].1) is Some by {
            if m < r.0.len() {
                assert(cur.0[m] == r.0[m]);
            }
        }
    }
}

proof fn lemma_run_best_fits(fit: spec_fn(usize, usize) -> Option<u64>, au: Seq<usize>, bu: Seq<usize>, t0: Seq<bool>, k: nat)
    requires
        k <= au.len(),
    ensures
        forall|m: int| 0 <= m < run_best(fit, au, bu, t0, k).0.len() ==>
            fit(#[trigger] run_best(fit, au, bu, t0, k).0[m].0, run_best(fit, au, bu, t0, k).0[m].1) is Some,
    decreases k,
{
    if k > 0 {
        lemma_run_best_fits(fit, au, bu, t0, (k - 1) as nat);
        let r = run_best(fit, au, bu, t0, (k - 1) as nat);
        let ai = au[k - 1];
        lemma_best_upto_fits(fit, ai, bu, r.1, bu.len());
        let cur = run_best(fit, au, bu, t0, k);
        assert forall|m: int| 0 <= m < cur.0.len() implies fit(#[trigger] cur.0[m].0, cur.0[m].1) is Some by {
            if m < r.0.len() {
                assert(cur.0[m] == r.0[m]);
            }
        }
    }
}

proof fn lemma_id_pairs_ok(ia: Seq<Seq<char>>, ib: Seq<Seq<char>>, n: nat)
    requires
        n <= ia.len(),
        ia.len() <= usize::MAX,
        ib.len() <= usize::MAX,
    ensures
        forall|m: int| 0 <= m < id_pairs(ia, ib, n).len() ==> {
            let p = #[trigger] id_pairs(ia, ib, n)[m];
            p.0 < n && explicit_id(ia[p.0 as int]) && 0 <= p.1 < ib.len() && ia[p.0 as int] == ib[p.1 as int]
        },
    decreases n,
{
    if n > 0 {
        lemma_id_pairs_ok(ia, ib, (n - 1) as nat);
        let r = id_pairs(ia, ib, (n - 1) as nat);
        let cur = id_pairs(ia, ib, n);
        let i = (n - 1) as int;
        assert forall|m: int| 0 <= m < cur.len() implies {
            let p = #[trigger] cur[m];
            p.0 < n && explicit_id(ia[p.0 as int]) && 0 <= p.1 < ib.len() && ia[p.0 as int] == ib[p.1 as int]
        } by {
            if m < r.len() {
                assert(cur[m] == r[m]);
            } else {
                let j = kept_with(ib, ia[i])->0;
                assert(0 <= j < ib.len() && kept(ib, j) && ib[j] == ia[i]);
                assert(cur[m] == (i as usize, j as usize));
            }
        }
    }
}

/// Every pair joins two entries of the same type, or two kept entries with
/// the same explicit id: similarity never pairs objects of different types.
pub proof fn law_pairs_share_type_or_id(a: Seq<DiffEntry>, b: Seq<DiffEntry>, sc: Seq<Seq<u64>>)
    requires
        a.len() <= usize::MAX,
        b.len() <= usize::MAX,
    ensures
        forall|m: int| 0 <= m < pairing(a, b, sc).0.len() ==> pair_ok(a, b, #[trigger] pairing(a, b, sc).0[m]),
{
    let ia = entry_ids(a);
    let ib = entry_ids(b);
    let au = leftovers(ia, ib);
    let bu = leftovers(ib, ia);
    let fit = fitness(a, b, sc);
    let t0 = Seq::new(bu.len(), |i: int| false);
    let ex = run_exact(fit, au, bu, t0, au.len());
    let be = run_best(fit, ex.2, bu, ex.1, ex.2.len());
    let ip = id_pairs(ia, ib, a.len());
    lemma_id_pairs_ok(ia, ib, a.len());
    lemma_run_exact_fits(fit, au, bu, t0, au.len());
    lemma_run_best_fits(fit, ex.2, bu, ex.1, ex.2.len());
    let all = ip + ex.0 + be.0;
    assert(pairing(a, b, sc).0 == all);
    assert forall|m: int| 0 <= m < all.len() implies pair_ok(a, b, #[trigger] all[m]) by {
        if m < ip.len() {
            assert(all[m] == ip[m]);
            assert(ia[ip[m].0 as int] == a[ip[m].0 as int].id@);
            assert(ib[ip[m].1 as int] == b[ip[m].1 as int].id@);
        } else if m < ip.len() + ex.0.len() {
            assert(all[m] == ex.0[m - ip.len()]);
            assert(fit(ex.0[m - ip.len()].0, ex.0[m - ip.len()].1) is Some);
        } else {
            assert(all[m] == be.0[m - ip.len() - ex.0.len()]);
            assert(fit(be.0[m - ip.len() - ex.0.len()].0, be.0[m - ip.len() - ex.0.len()].1) is Some);
        }
    }
}

proof fn lemma_indices_sorted(n: nat, p: spec_fn(usize) -> bool)
    requires
        n <= usize::MAX,
    ensures
        forall|k: int| 0 <= k < indices_where(n, p).len() ==> (#[trigger] indices_where(n, p)[k]) < n && p(indices_where(n, p)[k]),
        forall|k1: int, k2: int| 0 <= k1 < k2 < indices_where(n, p).len() ==> #[trigger] indices_where(n, p)[k1] < #[trigger] indices_where(n, p)[k2],
    decreases n,
{
    if n > 0 {
        lemma_indices_sorted((n - 1) as nat, p);
        let r = indices_where((n - 1) as nat, p);
        let cur = indices_where(n, p);
        assert forall|k: int| 0 <= k < cur.len() implies (#[trigger] cur[k]) < n && p(cur[k]) by {
            if k < r.len() {
                assert(cur[k] == r[k]);
            }
        }
        assert forall|k1: int, k2: int| 0 <= k1 < k2 < cur.len() implies #[trigger] cur[k1] < #[trigger] cur[k2] by {
            assert(cur[k1] == r[k1]);
            if k2 < r.len() {
                assert(cur[k2] == r[k2]);
            }
        }
    }
}

/// The leftover entries are distinct, in range, and each is either without
/// an explicit id or kept without a partner on the other side.
proof fn lemma_leftovers(mine: Seq<Seq<char>>, other: Seq<Seq<char>>)
    requires
        mine.len() <= usize::MAX,
    ensures
        forall|k: int| 0 <= k < leftovers(mine, other).len() ==> {
            let x = #[trigger] leftovers(mine, other)[k];
            &&& x < mine.len()
            &&& !explicit_id(mine[x as int]) || (kept(mine, x as int) && kept_with(other, mine[x as int]) is None)
        },
        forall|k1: int, k2: int| 0 <= k1 < k2 < leftovers(mine, other).len() ==>
            #[trigger] leftovers(mine, other)[k1] != #[trigger] leftovers(mine, other)[k2],
{
    let pa = |i: usize| !explicit_id(mine[i as int]);
    let pb = |i: usize| kept(mine, i as int) && kept_with(other, mine[i as int]) is None;
    let a = indices_where(mine.len(), pa);
    let b = indices_where(mine.len(), pb);
    lemma_indices_sorted(mine.len(), pa);
    lemma_indices_sorted(mine.len(), pb);
    let l = leftovers(mine, other);
    assert(l == a + b);
    assert forall|k: int| 0 <= k < l.len() implies {
        let x = #[trigger] l[k];
        &&& x < mine.len()
        &&& !explicit_id(mine[x as int]) || (kept(mine, x as int) && kept_with(other, mine[x as int]) is None)
    } by {
        if k < a.len() {
            assert(l[k] == a[k]);
            assert(pa(a[k]));
        } else {
            assert(l[k] == b[k - a.len()]);
            assert(pb(b[k - a.len()]));
        }
    }
    assert forall|k1: int, k2: int| 0 <= k1 < k2 < l.len() implies #[trigger] l[k1] != #[trigger] l[k2] by {
        if k2 < a.len() {
            assert(l[k1] == a[k1] && l[k2] == a[k2]);
        } else if k1 >= a.len() {
            assert(l[k1] == b[k1 - a.len()] && l[k2] == b[k2 - a.len()]);
        } else {
            assert(l[k1] == a[k1] && l[k2] == b[k2 - a.len()]);
            assert(pa(a[k1]));
            assert(pb(b[k2 - a.len()]));
        }
    }
}

/// The candidate positions that a run of the exact pass takes: distinct,
/// free before, and exactly those that become taken.
proof fn lemma_exact_positions(fit: spec_fn(usize, usize) -> Option<u64>, au: Seq<usize>, bu: Seq<usize>, t0: Seq<bool>, k: nat) -> (q: Seq<int>)
    requires
        k <= au.len(),
        t0.len() == bu.len(),
    ensures
        ({
            let r = run_exact(fit, au, bu, t0, k);
            &&& q.len() == r.0.len()
            &&& r.1.len() == t0.len()
            &&& forall|m: int| 0 <= m < q.len() ==> 0 <= #[trigger] q[m] < bu.len() && r.0[m].1 == bu[q[m]] && !t0[q[m]]
            &&& forall|m1: int, m2: int| 0 <= m1 < m2 < q.len() ==> #[trigger] q[m1] != #[trigger] q[m2]
            &&& forall|x: int| 0 <= x < bu.len() ==> #[trigger] r.1[x] == (t0[x] || q.contains(x))
        }),
    decreases k,
{
    if k == 0 {
        Seq::empty()
    } else {
        let qp = lemma_exact_positions(fit, au, bu, t0, (k - 1) as nat);
        let rp = run_exact(fit, au, bu, t0, (k - 1) as nat);
        let ai = au[k - 1];
        lemma_first_exact_fits(fit, ai, bu, rp.1, bu.len());
        match first_exact(fit, ai, bu, rp.1, bu.len()) {
            Some(p) => {
                let q = qp.push(p as int);
                let r = run_exact(fit, au, bu, t0, k);
                assert(!qp.contains(p as int));
                assert forall|x: int| 0 <= x < bu.len() implies #[trigger] r.1[x] == (t0[x] || q.contains(x)) by {
                    if x == p {
                        assert(q[qp.len() as int] == x);
                    } else {
                        assert(qp.contains(x) ==> q.contains(x)) by {
                            if qp.contains(x) {
                                let w = choose|w: int| 0 <= w < qp.len() && qp[w] == x;
                                assert(q[w] == x);
                            }
                        }
                        assert(q.contains(x) ==> qp.contains(x)) by {
                            if q.contains(x) {
                                let w = choose|w: int| 0 <= w < q.len() && q[w] == x;
                                assert(w < qp.len());
                                assert(qp[w] == x);
                            }
                        }
                    }
                }
                assert forall|m1: int, m2: int| 0 <= m1 < m2 < q.len() implies #[trigger] q[m1] != #[trigger] q[m2] by {
                    if m2 == qp.len() {
                        assert(q[m1] == qp[m1]);
                        assert(qp.contains(qp[m1]));
                    } else {
                        assert(q[m1] == qp[m1] && q[m2] == qp[m2]);
                    }
                }
                assert forall|m: int| 0 <= m < q.len() implies 0 <= #[trigger] q[m] < bu.len() && r.0[m].1 == bu[q[m]] && !t0[q[m]] by {
                    if m < qp.len() {
                        assert(q[m] == qp[m]);
                        assert(r.0[m] == rp.0[m]);
                    } else {
                        assert(!rp.1[p as int]);
                    }
                }
                q
            },
            None => qp,
        }
    }
}

/// The candidate positions that a run of the closest-match pass takes.
proof fn lemma_best_positions(fit: spec_fn(usize, usize) -> Option<u64>, au: Seq<usize>, bu: Seq<usize>, t0: Seq<bool>, k: nat) -> (q: Seq<int>)
    requires
        k <= au.len(),
        t0.len() == bu.len(),
    ensures
        ({
            let r = run_best(fit, au, bu, t0, k);
            &&& q.len() == r.0.len()
            &&& r.1.len() == t0.len()
            &&& forall|m: int| 0 <= m < q.len() ==> 0 <= #[trigger] q[m] < bu.len() && r.0[m].1 == bu[q[m]] && !t0[q[m]]
            &&& forall|m1: int, m2: int| 0 <= m1 < m2 < q.len() ==> #[trigger] q[m1] != #[trigger] q[m2]
            &&& forall|x: int| 0 <= x < bu.len() ==> #[trigger] r.1[x] == (t0[x] || q.contains(x))
        }),
    decreases k,
{
    if k == 0 {
        Seq::empty()
    } else {
        let qp = lemma_best_positions(fit, au, bu, t0, (k - 1) as nat);
        let rp = run_best(fit, au, bu, t0, (k - 1) as nat);
        let ai = au[k - 1];
        lemma_best_upto_fits(fit, ai, bu, rp.1, bu.len());
        match best_upto(fit, ai, bu, rp.1, bu.len()) {
            Some(bd) => {
                if float_lt(bd.1, MAX_DISTANCE_BITS) {
                    let p = bd.0;
                    let q = qp.push(p as int);
                    let r = run_best(fit, au, bu, t0, k);
                    assert(!qp.contains(p as int));
                    assert forall|x: int| 0 <= x < bu.len() implies #[trigger] r.1[x] == (t0[x] || q.contains(x)) by {
                        if x == p {
                            assert(q[qp.len() as int] == x);
                        } else {
                            assert(qp.contains(x) ==> q.contains(x)) by {
                                if qp.contains(x) {
                                    let w = choose|w: int| 0 <= w < qp.len() && qp[w] == x;
                                    assert(q[w] == x);
                                }
                            }
                            assert(q.contains(x) ==> qp.contains(x)) by {
                                if q.contains(x) {
                                    let w = choose|w: int| 0 <= w < q.len() && q[w] == x;
                                    assert(w < qp.len());
                                    assert(qp[w] == x);
                                }
                            }
                        }
                    }
                    assert forall|m1: int, m2: int| 0 <= m1 < m2 < q.len() implies #[trigger] q[m1] != #[trigger] q[m2] by {
                        if m2 == qp.len() {
                            assert(q[m1] == qp[m1]);
                            assert(qp.contains(qp[m1]));
                        } else {
                            assert(q[m1] == qp[m1] && q[m2] == qp[m2]);
                        }
                    }
                    assert forall|m: int| 0 <= m < q.len() implies 0 <= #[trigger] q[m] < bu.len() && r.0[m].1 == bu[q[m]] && !t0[q[m]] by {
                        if m < qp.len() {
                            assert(q[m] == qp[m]);
                            assert(r.0[m] == rp.0[m]);
                        } else {
                            assert(!rp.1[p as int]);
                        }
                    }
                    q
                } else {
                    qp
                }
            },
            None => qp,
        }
    }
}

/// The positions of the candidates left untaken, in increasing order.
proof fn lemma_untaken_positions(bu: Seq<usize>, t: Seq<bool>, n: nat) -> (u: Seq<int>)
    requires
        n <= bu.len(),
        n <= t.len(),
    ensures
        u.len() == untaken(bu, t, n).len(),
        forall|m: int| 0 <= m < u.len() ==> 0 <= #[trigger] u[m] < n && untaken(bu, t, n)[m] == bu[u[m]] && !t[u[m]],
        forall|m1: int, m2: int| 0 <= m1 < m2 < u.len() ==> #[trigger] u[m1] < #[trigger] u[m2],
    decreases n,
{
    if n == 0 {
        Seq::empty()
    } else {
        let up = lemma_untaken_positions(bu, t, (n - 1) as nat);
        let rp = untaken(bu, t, (n - 1) as nat);
        let cur = untaken(bu, t, n);
        if !t[n - 1] {
            let u = up.push(n - 1);
            assert forall|m: int| 0 <= m < u.len() implies 0 <= #[trigger] u[m] < n && cur[m] == bu[u[m]] && !t[u[m]] by {
                if m < up.len() {
                    assert(u[m] == up[m] && cur[m] == rp[m]);
                }
            }
            assert forall|m1: int, m2: int| 0 <= m1 < m2 < u.len() implies #[trigger] u[m1] < #[trigger] u[m2] by {
                assert(u[m1] == up[m1]);
                if m2 < up.len() {
                    assert(u[m2] == up[m2]);
                }
            }
            u
        } else {
            up
        }
    }
}

/// The id pairs run in increasing order of their first entries, which are
/// kept, each with the kept entry of the other side with the same id.
proof fn lemma_id_pairs_kept(ia: Seq<Seq<char>>, ib: Seq<Seq<char>>, n: nat)
    requires
        n <= ia.len(),
        ia.len() <= usize::MAX,
        ib.len() <= usize::MAX,
    ensures
        forall|m: int| 0 <= m < id_pairs(ia, ib, n).len() ==> {
            let p = #[trigger] id_pairs(ia, ib, n)[m];
            &&& p.0 < n && p.1 < ib.len()
            &&& kept(ia, p.0 as int) && kept(ib, p.1 as int) && ia[p.0 as int] == ib[p.1 as int]
        },
        forall|m1: int, m2: int| 0 <= m1 < m2 < id_pairs(ia, ib, n).len() ==>
            #[trigger] id_pairs(ia, ib, n)[m1].0 < #[trigger] id_pairs(ia, ib, n)[m2].0,
    decreases n,
{
    if n > 0 {
        lemma_id_pairs_kept(ia, ib, (n - 1) as nat);
        let r = id_pairs(ia, ib, (n - 1) as nat);
        let cur = id_pairs(ia, ib, n);
        let i = (n - 1) as int;
        assert forall|m: int| 0 <= m < cur.len() implies {
            let p = #[trigger] cur[m];
            &&& p.0 < n && p.1 < ib.len()
            &&& kept(ia, p.0 as int) && kept(ib, p.1 as int) && ia[p.0 as int] == ib[p.1 as int]
        } by {
            if m < r.len() {
                assert(cur[m] == r[m]);
            } else {
                let j = kept_with(ib, ia[i])->0;
                assert(0 <= j < ib.len() && kept(ib, j) && ib[j] == ia[i]);
                assert(cur[m] == (i as usize, j as usize));
            }
        }
        assert forall|m1: int, m2: int| 0 <= m1 < m2 < cur.len() implies #[trigger] cur[m1].0 < #[trigger] cur[m2].0 by {
            assert(cur[m1] == r[m1]);
            if m2 < r.len() {
                assert(cur[m2] == r[m2]);
            } else {
                assert(cur[m2].0 == i);
            }
        }
    }
}

/// How a run of the exact-match pass splits the entries it processes: the
/// positions (in `au`) of the paired ones and of the left-over ones, each
/// increasing, never the same.
proof fn lemma_exact_split(fit: spec_fn(usize, usize) -> Option<u64>, au: Seq<usize>, bu: Seq<usize>, t0: Seq<bool>, k: nat) -> (ps: (Seq<int>, Seq<int>))
    requires
        k <= au.len(),
    ensures
        ({
            let r = run_exact(fit, au, bu, t0, k);
            &&& ps.0.len() == r.0.len()
            &&& ps.1.len() == r.2.len()
            &&& forall|m: int| 0 <= m < ps.0.len() ==> 0 <= #[trigger] ps.0[m] < k && r.0[m].0 == au[ps.0[m]]
            &&& forall|m: int| 0 <= m < ps.1.len() ==> 0 <= #[trigger] ps.1[m] < k && r.2[m] == au[ps.1[m]]
            &&& forall|m1: int, m2: int| 0 <= m1 < m2 < ps.0.len() ==> #[trigger] ps.0[m1] < #[trigger] ps.0[m2]
            &&& forall|m1: int, m2: int| 0 <= m1 < m2 < ps.1.len() ==> #[trigger] ps.1[m1] < #[trigger] ps.1[m2]
            &&& forall|m1: int, m2: int| 0 <= m1 < ps.0.len() && 0 <= m2 < ps.1.len() ==> #[trigger] ps.0[m1] != #[trigger] ps.1[m2]
            &&& forall|p: int| 0 <= p < k ==> ps.0.contains(p) || ps.1.contains(p)
        }),
    decreases k,
{
    if k == 0 {
        (Seq::empty(), Seq::empty())
    } else {
        let pp = lemma_exact_split(fit, au, bu, t0, (k - 1) as nat);
        let rp = run_exact(fit, au, bu, t0, (k - 1) as nat);
        let r = run_exact(fit, au, bu, t0, k);
        let last = (k - 1) as int;
        if r.0.len() == rp.0.len() + 1 {
            assert(r.2 == rp.2);
            assert(r.0 == rp.0.push(r.0.last()));
            let ps = (pp.0.push(last), pp.1);
            assert forall|m: int| 0 <= m < ps.0.len() implies 0 <= #[trigger] ps.0[m] < k && r.0[m].0 == au[ps.0[m]] by {
                if m < pp.0.len() {
                    assert(ps.0[m] == pp.0[m]);
                    assert(r.0[m] == rp.0[m]);
                }
            }
            assert forall|m1: int, m2: int| 0 <= m1 < m2 < ps.0.len() implies #[trigger] ps.0[m1] < #[trigger] ps.0[m2] by {
                assert(ps.0[m1] == pp.0[m1]);
                if m2 < pp.0.len() {
                    assert(ps.0[m2] == pp.0[m2]);
                }
            }
            assert forall|m1: int, m2: int| 0 <= m1 < ps.0.len() && 0 <= m2 < ps.1.len() implies #[trigger] ps.0[m1] != #[trigger] ps.1[m2] by {
                if m1 < pp.0.len() {
                    assert(ps.0[m1] == pp.0[m1]);
                }
            }
            assert forall|p: int| 0 <= p < k implies ps.0.contains(p) || ps.1.contains(p) by {
                if p == last {
                    assert(ps.0[ps.0.len() - 1] == last);
                } else if pp.0.contains(p) {
                    let m = choose|m: int| 0 <= m < pp.0.len() && pp.0[m] == p;
                    assert(ps.0[m] == p);
                } else {
                    let m = choose|m: int| 0 <= m < pp.1.len() && pp.1[m] == p;
                    assert(ps.1[m] == p);
                }
            }
            ps
        } else {
            assert(r.0 == rp.0);
            assert(r.2 == rp.2.push(au[last]));
            let ps = (pp.0, pp.1.push(last));
            assert forall|m: int| 0 <= m < ps.1.len() implies 0 <= #[trigger] ps.1[m] < k && r.2[m] == au[ps.1[m]] by {
                if m < pp.1.len() {
                    assert(ps.1[m] == pp.1[m]);
                    assert(r.2[m] == rp.2[m]);
                }
            }
            assert forall|m1: int, m2: int| 0 <= m1 < m2 < ps.1.len() implies #[trigger] ps.1[m1] < #[trigger] ps.1[m2] by {
                assert(ps.1[m1] == pp.1[m1]);
                if m2 < pp.1.len() {
                    assert(ps.1[m2] == pp.1[m2]);
                }
            }
            assert forall|m1: int, m2: int| 0 <= m1 < ps.0.len() && 0 <= m2 < ps.1.len() implies #[trigger] ps.0[m1] != #[trigger] ps.1[m2] by {
                if m2 < pp.1.len() {
                    assert(ps.1[m2] == pp.1[m2]);
                }
            }
            assert forall|p: int| 0 <= p < k implies ps.0.contains(p) || ps.1.contains(p) by {
                if p == last {
                    assert(ps.1[ps.1.len() - 1] == last);
                } else if pp.0.contains(p) {
                    let m = choose|m: int| 0 <= m < pp.0.len() && pp.0[m] == p;
                    assert(ps.0[m] == p);
                } else {
                    let m = choose|m: int| 0 <= m < pp.1.len() && pp.1[m] == p;
                    assert(ps.1[m] == p);
                }
            }
            ps
        }
    }
}

/// How a run of the closest-match pass splits the entries it processes: the
/// positions (in `au`) of the paired ones and of the left-over ones, each
/// increasing, never the same.
proof fn lemma_best_split(fit: spec_fn(usize, usize) -> Option<u64>, au: Seq<usize>, bu: Seq<usize>, t0: Seq<bool>, k: nat) -> (ps: (Seq<int>, Seq<int>))
    requires
        k <= au.len(),
    ensures
        ({
            let r = run_best(fit, au, bu, t0, k);
            &&& ps.0.len() == r.0.len()
            &&& ps.1.len() == r.2.len()
            &&& forall|m: int| 0 <= m < ps.0.len() ==> 0 <= #[trigger] ps.0[m] < k && r.0[m].0 == au[ps.0[m]]
            &&& forall|m: int| 0 <= m < ps.1.len() ==> 0 <= #[trigger] ps.1[m] < k && r.2[m] == au[ps.1[m]]
            &&& forall|m1: int, m2: int| 0 <= m1 < m2 < ps.0.len() ==> #[trigger] ps.0[m1] < #[trigger] ps.0[m2]
            &&& forall|m1: int, m2: int| 0 <= m1 < m2 < ps.1.len() ==> #[trigger] ps.1[m1] < #[trigger] ps.1[m2]
            &&& forall|m1: int, m2: int| 0 <= m1 < ps.0.len() && 0 <= m2 < ps.1.len() ==> #[trigger] ps.0[m1] != #[trigger] ps.1[m2]
            &&& forall|p: int| 0 <= p < k ==> ps.0.contains(p) || ps.1.contains(p)
        }),
    decreases k,
{
    if k == 0 {
        (Seq::empty(), Seq::empty())
    } else {
        let pp = lemma_best_split(fit, au, bu, t0, (k - 1) as nat);
        let rp = run_best(fit, au, bu, t0, (k - 1) as nat);
        let r = run_best(fit, au, bu, t0, k);
        let last = (k - 1) as int;
        if r.0.len() == rp.0.len() + 1 {
            assert(r.2 == rp.2);
            assert(r.0 == rp.0.push(r.0.last()));
            let ps = (pp.0.push(last), pp.1);
            assert forall|m: int| 0 <= m < ps.0.len() implies 0 <= #[trigger] ps.0[m] < k && r.0[m].0 == au[ps.0[m]] by {
                if m < pp.0.len() {
                    assert(ps.0[m] == pp.0[m]);
                    assert(r.0[m] == rp.0[m]);
                }
            }
            assert forall|m1: int, m2: int| 0 <= m1 < m2 < ps.0.len() implies #[trigger] ps.0[m1] < #[trigger] ps.0[m2] by {
                assert(ps.0[m1] == pp.0[m1]);
                if m2 < pp.0.len() {
                    assert(ps.0[m2] == pp.0[m2]);
                }
            }
            assert forall|m1: int, m2: int| 0 <= m1 < ps.0.len() && 0 <= m2 < ps.1.len() implies #[trigger] ps.0[m1] != #[trigger] ps.1[m2] by {
                if m1 < pp.0.len() {
                    assert(ps.0[m1] == pp.0[m1]);
                }
            }
            assert forall|p: int| 0 <= p < k implies ps.0.contains(p) || ps.1.contains(p) by {
                if p == last {
                    assert(ps.0[ps.0.len() - 1] == last);
                } else if pp.0.contains(p) {
                    let m = choose|m: int| 0 <= m < pp.0.len() && pp.0[m] == p;
                    assert(ps.0[m] == p);
                } else {
                    let m = choose|m: int| 0 <= m < pp.1.len() && pp.1[m] == p;
                    assert(ps.1[m] == p);
                }
            }
            ps
        } else {
            assert(r.0 == rp.0);
            assert(r.2 == rp.2.push(au[last]));
            let ps = (pp.0, pp.1.push(last));
            assert forall|m: int| 0 <= m < ps.1.len() implies 0 <= #[trigger] ps.1[m] < k && r.2[m] == au[ps.1[m]] by {
                if m < pp.1.len() {
                    assert(ps.1[m] == pp.1[m]);
                    assert(r.2[m] == rp.2[m]);
                }
            }
            assert forall|m1: int, m2: int| 0 <= m1 < m2 < ps.1.len() implies #[trigger] ps.1[m1] < #[trigger] ps.1[m2] by {
                assert(ps.1[m1] == pp.1[m1]);
                if m2 < pp.1.len() {
                    assert(ps.1[m2] == pp.1[m2]);
                }
            }
            assert forall|m1: int, m2: int| 0 <= m1 < ps.0.len() && 0 <= m2 < ps.1.len() implies #[trigger] ps.0[m1] != #[trigger] ps.1[m2] by {
                if m2 < pp.1.len() {
                    assert(ps.1[m2] == pp.1[m2]);
                }
            }
            assert forall|p: int| 0 <= p < k implies ps.0.contains(p) || ps.1.contains(p) by {
                if p == last {
                    assert(ps.1[ps.1.len() - 1] == last);
                } else if pp.0.contains(p) {
                    let m = choose|m: int| 0 <= m < pp.0.len() && pp.0[m] == p;
                    assert(ps.0[m] == p);
                } else {
                    let m = choose|m: int| 0 <= m < pp.1.len() && pp.1[m] == p;
                    assert(ps.1[m] == p);
                }
            }
            ps
        }
    }
}

/// Every entry of the first side occurs at most once in the outcome: as
/// the first of one pair, or among the removed entries.
pub proof fn law_first_side_used_once(a: Seq<DiffEntry>, b: Seq<DiffEntry>, sc: Seq<Seq<u64>>)
    requires
        a.len() <= usize::MAX,
        b.len() <= usize::MAX,
    ensures
        (pairing(a, b, sc).0.map_values(|p: (usize, usize)| p.0) + pairing(a, b, sc).1).no_duplicates(),
{
    let ia = entry_ids(a);
    let ib = entry_ids(b);
    let au = leftovers(ia, ib);
    let bu = leftovers(ib, ia);
    let fit = fitness(a, b, sc);
    let t0 = Seq::new(bu.len(), |i: int| false);
    let ex = run_exact(fit, au, bu, t0, au.len());
    let s1 = lemma_exact_split(fit, au, bu, t0, au.len());
    let be = run_best(fit, ex.2, bu, ex.1, ex.2.len());
    let s2 = lemma_best_split(fit, ex.2, bu, ex.1, ex.2.len());
    let ip = id_pairs(ia, ib, a.len());
    lemma_id_pairs_kept(ia, ib, a.len());
    lemma_leftovers(ia, ib);
    let all = (ip + ex.0 + be.0).map_values(|p: (usize, usize)| p.0) + be.2;
    assert(pairing(a, b, sc).0 == ip + ex.0 + be.0);
    assert(pairing(a, b, sc).1 == be.2);
    let n1 = ip.len() as int;
    let n2 = ex.0.len() as int;
    let n3 = be.0.len() as int;
    // Past the id pairs, each value is a leftover at a known position.
    assert forall|x: int| n1 <= x < all.len() implies {
        let pos = if x < n1 + n2 { s1.0[x - n1] } else if x < n1 + n2 + n3 { s1.1[s2.0[x - n1 - n2]] } else { s1.1[s2.1[x - n1 - n2 - n3]] };
        0 <= pos < au.len() && #[trigger] all[x] == au[pos]
    } by {
        if x < n1 + n2 {
            assert(all[x] == (ip + ex.0 + be.0)[x].0);
            assert((ip + ex.0 + be.0)[x] == ex.0[x - n1]);
        } else if x < n1 + n2 + n3 {
            assert(all[x] == (ip + ex.0 + be.0)[x].0);
            assert((ip + ex.0 + be.0)[x] == be.0[x - n1 - n2]);
            assert(0 <= s2.0[x - n1 - n2] < ex.2.len());
        } else {
            assert(all[x] == be.2[x - n1 - n2 - n3]);
            assert(0 <= s2.1[x - n1 - n2 - n3] < ex.2.len());
        }
    }
    assert forall|x: int| 0 <= x < n1 implies #[trigger] all[x] == ip[x].0 by {
        assert((ip + ex.0 + be.0)[x] == ip[x]);
    }
    // A first entry of an id pair is never a leftover.
    assert forall|x: int, k: int| 0 <= x < n1 && 0 <= k < au.len() implies #[trigger] ip[x].0 != #[trigger] au[k] by {
        let p = ip[x];
        assert(kept(ib, p.1 as int) && ia[p.0 as int] == ib[p.1 as int]);
        if au[k] == p.0 {
            assert(kept_with(ib, ia[p.0 as int]) is Some);
        }
    }
    assert forall|x: int, y: int| 0 <= x < all.len() && 0 <= y < all.len() && x != y implies all[x] != all[y] by {
        let (lo, hi) = if x < y { (x, y) } else { (y, x) };
        if hi < n1 {
            assert(ip[lo].0 < ip[hi].0);
        } else if lo < n1 {
            let poshi = if hi < n1 + n2 { s1.0[hi - n1] } else if hi < n1 + n2 + n3 { s1.1[s2.0[hi - n1 - n2]] } else { s1.1[s2.1[hi - n1 - n2 - n3]] };
            assert(all[hi] == au[poshi]);
        } else {
            let plo = if lo < n1 + n2 { s1.0[lo - n1] } else if lo < n1 + n2 + n3 { s1.1[s2.0[lo - n1 - n2]] } else { s1.1[s2.1[lo - n1 - n2 - n3]] };
            let phi = if hi < n1 + n2 { s1.0[hi - n1] } else if hi < n1 + n2 + n3 { s1.1[s2.0[hi - n1 - n2]] } else { s1.1[s2.1[hi - n1 - n2 - n3]] };
            assert(all[lo] == au[plo] && all[hi] == au[phi]);
            assert(plo != phi) by {
                if hi < n1 + n2 {
                    assert(s1.0[lo - n1] < s1.0[hi - n1]);
                } else if lo < n1 + n2 {
                    let j = if hi < n1 + n2 + n3 { s2.0[hi - n1 - n2] } else { s2.1[hi - n1 - n2 - n3] };
                    assert(0 <= j < s1.1.len());
                    assert(s1.0[lo - n1] != s1.1[j]);
                } else {
                    let jl = if lo < n1 + n2 + n3 { s2.0[lo - n1 - n2] } else { s2.1[lo - n1 - n2 - n3] };
                    let jh = if hi < n1 + n2 + n3 { s2.0[hi - n1 - n2] } else { s2.1[hi - n1 - n2 - n3] };
                    assert(jl != jh) by {
                        if hi < n1 + n2 + n3 {
                            assert(s2.0[lo - n1 - n2] < s2.0[hi - n1 - n2]);
                        } else if lo < n1 + n2 + n3 {
                            assert(s2.0[lo - n1 - n2] != s2.1[hi - n1 - n2 - n3]);
                        } else {
                            assert(s2.1[lo - n1 - n2 - n3] < s2.1[hi - n1 - n2 - n3]);
                        }
                    }
                    assert(0 <= jl < s1.1.len() && 0 <= jh < s1.1.len());
                    if jl < jh {
                        assert(s1.1[jl] < s1.1[jh]);
                    } else {
                        assert(s1.1[jh] < s1.1[jl]);
                    }
                }
            }
        }
    }
    assert(pairing(a, b, sc).0.map_values(|p: (usize, usize)| p.0) + pairing(a, b, sc).1 =~= all);
}

/// Every entry of the second side occurs at most once in the outcome: as
/// the partner of one pair, or among the added entries.
pub proof fn law_second_side_used_once(a: Seq<DiffEntry>, b: Seq<DiffEntry>, sc: Seq<Seq<u64>>)
    requires
        a.len() <= usize::MAX,
        b.len() <= usize::MAX,
    ensures
        (pairing(a, b, sc).0.map_values(|p: (usize, usize)| p.1) + pairing(a, b, sc).2).no_duplicates(),
{
    let ia = entry_ids(a);
    let ib = entry_ids(b);
    let au = leftovers(ia, ib);
    let bu = leftovers(ib, ia);
    let fit = fitness(a, b, sc);
    let t0 = Seq::new(bu.len(), |i: int| false);
    let ex = run_exact(fit, au, bu, t0, au.len());
    let q1 = lemma_exact_positions(fit, au, bu, t0, au.len());
    let be = run_best(fit, ex.2, bu, ex.1, ex.2.len());
    let q2 = lemma_best_positions(fit, ex.2, bu, ex.1, ex.2.len());
    let added = untaken(bu, be.1, bu.len());
    let u = lemma_untaken_positions(bu, be.1, bu.len());
    let ip = id_pairs(ia, ib, a.len());
    lemma_id_pairs_kept(ia, ib, a.len());
    lemma_leftovers(ib, ia);
    let all = (ip + ex.0 + be.0).map_values(|p: (usize, usize)| p.1) + added;
    assert(pairing(a, b, sc).0 == ip + ex.0 + be.0);
    let n1 = ip.len() as int;
    let n2 = ex.0.len() as int;
    let n3 = be.0.len() as int;
    // The value at each index of `all`: an id partner, or a candidate at a known position.
    assert forall|x: int| n1 <= x < all.len() implies {
        let pos = if x < n1 + n2 { q1[x - n1] } else if x < n1 + n2 + n3 { q2[x - n1 - n2] } else { u[x - n1 - n2 - n3] };
        0 <= pos < bu.len() && #[trigger] all[x] == bu[pos]
    } by {
        if x < n1 + n2 {
            assert(all[x] == (ip + ex.0 + be.0)[x].1);
            assert((ip + ex.0 + be.0)[x] == ex.0[x - n1]);
        } else if x < n1 + n2 + n3 {
            assert(all[x] == (ip + ex.0 + be.0)[x].1);
            assert((ip + ex.0 + be.0)[x] == be.0[x - n1 - n2]);
        } else {
            assert(all[x] == added[x - n1 - n2 - n3]);
        }
    }
    assert forall|x: int| 0 <= x < n1 implies #[trigger] all[x] == ip[x].1 by {
        assert((ip + ex.0 + be.0)[x] == ip[x]);
    }
    // An id partner is never a leftover candidate.
    assert forall|x: int, k: int| 0 <= x < n1 && 0 <= k < bu.len() implies #[trigger] ip[x].1 != #[trigger] bu[k] by {
        let p = ip[x];
        assert(kept(ia, p.0 as int) && ia[p.0 as int] == ib[p.1 as int]);
        if bu[k] == p.1 {
            assert(kept_with(ia, ib[p.1 as int]) is Some);
        }
    }
    assert forall|x: int, y: int| 0 <= x < all.len() && 0 <= y < all.len() && x != y implies all[x] != all[y] by {
        let (lo, hi) = if x < y { (x, y) } else { (y, x) };
        if hi < n1 {
            let pl = ip[lo];
            let ph = ip[hi];
            assert(pl.0 < ph.0);
            if pl.1 == ph.1 {
                lemma_kept_unique(ia, pl.0 as int, ph.0 as int);
            }
        } else if lo < n1 {
            let poshi = if hi < n1 + n2 { q1[hi - n1] } else if hi < n1 + n2 + n3 { q2[hi - n1 - n2] } else { u[hi - n1 - n2 - n3] };
            assert(all[hi] == bu[poshi]);
        } else {
            let plo = if lo < n1 + n2 { q1[lo - n1] } else if lo < n1 + n2 + n3 { q2[lo - n1 - n2] } else { u[lo - n1 - n2 - n3] };
            let phi = if hi < n1 + n2 { q1[hi - n1] } else if hi < n1 + n2 + n3 { q2[hi - n1 - n2] } else { u[hi - n1 - n2 - n3] };
            assert(all[lo] == bu[plo] && all[hi] == bu[phi]);
            assert(plo != phi) by {
                if hi < n1 + n2 {
                    assert(q1[lo - n1] != q1[hi - n1]);
                } else if hi < n1 + n2 + n3 {
                    if lo < n1 + n2 {
                        assert(!ex.1[phi]);
                        assert(q1.contains(plo));
                    } else {
                        assert(q2[lo - n1 - n2] != q2[hi - n1 - n2]);
                    }
                } else {
                    assert(!be.1[phi]);
                    if lo < n1 + n2 {
                        assert(q1.contains(plo));
                        assert(ex.1[plo]);
                    } else if lo < n1 + n2 + n3 {
                        assert(q2.contains(plo));
                    } else {
                        assert(u[lo - n1 - n2 - n3] < u[hi - n1 - n2 - n3]);
                    }
                }
            }
        }
    }
    assert(pairing(a, b, sc).0.map_values(|p: (usize, usize)| p.1) + pairing(a, b, sc).2 =~= all);
}

/// Pairs the top-level objects of two documents; `scores[i][j]` is the
/// bit pattern of the (non-negative) similarity distance of `a[i]` and
/// `b[j]`, consulted only for entries of the same type.
pub fn match_objects(a: &Vec<DiffEntry>, b: &Vec<DiffEntry>, scores: &Vec<Vec<u64>>) -> (r: Matching)
    requires
        scores@.len() == a@.len(),
        forall|k: int| 0 <= k < a@.len() ==> (#[trigger] scores@[k])@.len() == b@.len(),
    ensures
        (r.pairs@, r.removed@, r.added@) == pairing(a@, b@, scores@.map_values(|v: Vec<u64>| v@)),
{
    let ghost ia = entry_ids(a@);
    let ghost ib = entry_ids(b@);
    let a_kept = kept_flags(a);
    let b_kept = kept_flags(b);
    let id_pairs_v = collect_id_pairs(a, &a_kept, b, &b_kept);
    let mut au = collect_where_loose(a);
    let mut a_orph = collect_orphans(a, &a_kept, b, &b_kept);
    au.append(&mut a_orph);
    let mut bu = collect_where_loose(b);
    let mut b_orph = collect_orphans(b, &b_kept, a, &a_kept);
    bu.append(&mut b_orph);
    proof {
        assert(au@ == leftovers(ia, ib));
        assert(bu@ == leftovers(ib, ia));
        lemma_indices_bound(a@.len(), |i: usize| !explicit_id(ia[i as int]));
        lemma_indices_bound(a@.len(), |i: usize| kept(ia, i as int) && kept_with(ib, ia[i as int]) is None);
        lemma_indices_bound(b@.len(), |i: usize| !explicit_id(ib[i as int]));
        lemma_indices_bound(b@.len(), |i: usize| kept(ib, i as int) && kept_with(ia, ib[i as int]) is None);
        assert forall|k: int| 0 <= k < au@.len() implies (#[trigger] au@[k]) < a@.len() by {
            let l1 = indices_where(a@.len(), |i: usize| !explicit_id(ia[i as int]));
            if k >= l1.len() {
                assert(au@[k] == indices_where(a@.len(), |i: usize| kept(ia, i as int) && kept_with(ib, ia[i as int]) is None)[k - l1.len()]);
            }
        }
        assert forall|k: int| 0 <= k < bu@.len() implies (#[trigger] bu@[k]) < b@.len() by {
            let l1 = indices_where(b@.len(), |i: usize| !explicit_id(ib[i as int]));
            if k >= l1.len() {
                assert(bu@[k] == indices_where(b@.len(), |i: usize| kept(ib, i as int) && kept_with(ia, ib[i as int]) is None)[k - l1.len()]);
            }
        }
    }
    let m = bu.len();
    let t0: Vec<bool> = vec![false; m];
    let ghost t0v = t0@;
    proof {
        assert(t0v =~= Seq::new(bu@.len(), |i: int| false));
    }
    let ex = exact_pass(a, b, scores, &au, &bu, t0);
    let (ex_pairs, ex_taken, ex_still) = ex;
    proof {
        lemma_run_exact_still(fitness(a@, b@, scores@.map_values(|v: Vec<u64>| v@)), au@, bu@,
            t0v, au@.len(), a@.len() as nat);
        let fit = fitness(a@, b@, scores@.map_values(|v: Vec<u64>| v@));
        assert(ex_still@ == run_exact(fit, au@, bu@, t0v, au@.len()).2);
        assert forall|k: int| 0 <= k < ex_still@.len() implies (#[trigger] ex_still@[k]) < a@.len() by {
            assert(run_exact(fit, au@, bu@, t0v, au@.len()).2[k] < a@.len());
        }
        assert(table_ok(a@, b@, scores@, au@, bu@));
    }
    let be = best_pass(a, b, scores, &ex_still, &bu, ex_taken);
    let (mut be_pairs, be_taken, be_removed) = be;
    let added = untaken_of(&bu, &be_taken);
    let mut pairs = id_pairs_v;
    let mut ex_pairs = ex_pairs;
    pairs.append(&mut ex_pairs);
    pairs.append(&mut be_pairs);
    Matching { pairs, removed: be_removed, added }
}


proof fn lemma_indices_contain(n: nat, p: spec_fn(usize) -> bool, x: usize)
    requires
        x < n,
        p(x),
    ensures
        indices_where(n, p).contains(x),
    decreases n,
{
    let r = indices_where((n - 1) as nat, p);
    if x == n - 1 {
        assert(indices_where(n, p)[r.len() as int] == x);
    } else {
        lemma_indices_contain((n - 1) as nat, p, x);
        let m = choose|m: int| 0 <= m < r.len() && r[m] == x;
        assert(indices_where(n, p)[m] == x);
    }
}

proof fn lemma_id_pairs_cover(ia: Seq<Seq<char>>, ib: Seq<Seq<char>>, n: nat, x: int)
    requires
        0 <= x < n,
        n <= ia.len(),
        ia.len() <= usize::MAX,
        kept(ia, x),
        kept_with(ib, ia[x]) is Some,
    ensures
        exists|m: int| 0 <= m < id_pairs(ia, ib, n).len() && #[trigger] id_pairs(ia, ib, n)[m].0 == x,
    decreases n,
{
    let r = id_pairs(ia, ib, (n - 1) as nat);
    if x == n - 1 {
        assert(id_pairs(ia, ib, n) == r.push((x as usize, kept_with(ib, ia[x])->0 as usize)));
        assert(id_pairs(ia, ib, n)[r.len() as int].0 == x);
    } else {
        lemma_id_pairs_cover(ia, ib, (n - 1) as nat, x);
        let m = choose|m: int| 0 <= m < r.len() && #[trigger] r[m].0 == x;
        assert(id_pairs(ia, ib, n)[m] == r[m]);
    }
}

/// Explicit ids are not repeated among the entries.
pub open spec fn explicit_ids_distinct(es: Seq<DiffEntry>) -> bool {
    forall|i: int, j: int| 0 <= i < j < es.len() && explicit_id(#[trigger] es[i].id@) ==> es[i].id@ != #[trigger] es[j].id@
}

/// When no explicit id repeats on the first side, every entry of that side
/// is accounted for: it is the first of a pair or among the removed entries
/// (and, with `law_first_side_used_once`, exactly one of them, once).
pub proof fn law_first_side_accounted(a: Seq<DiffEntry>, b: Seq<DiffEntry>, sc: Seq<Seq<u64>>, x: usize)
    requires
        a.len() <= usize::MAX,
        b.len() <= usize::MAX,
        explicit_ids_distinct(a),
        x < a.len(),
    ensures
        (pairing(a, b, sc).0.map_values(|p: (usize, usize)| p.0) + pairing(a, b, sc).1).contains(x),
{
    let ia = entry_ids(a);
    let ib = entry_ids(b);
    let au = leftovers(ia, ib);
    let bu = leftovers(ib, ia);
    let fit = fitness(a, b, sc);
    let t0 = Seq::new(bu.len(), |i: int| false);
    let ex = run_exact(fit, au, bu, t0, au.len());
    let s1 = lemma_exact_split(fit, au, bu, t0, au.len());
    let be = run_best(fit, ex.2, bu, ex.1, ex.2.len());
    let s2 = lemma_best_split(fit, ex.2, bu, ex.1, ex.2.len());
    let ip = id_pairs(ia, ib, a.len());
    let all = (ip + ex.0 + be.0).map_values(|p: (usize, usize)| p.0) + be.2;
    assert(pairing(a, b, sc).0 == ip + ex.0 + be.0);
    assert(pairing(a, b, sc).1 == be.2);
    assert(pairing(a, b, sc).0.map_values(|p: (usize, usize)| p.0) + pairing(a, b, sc).1 =~= all);
    let n1 = ip.len() as int;
    let n2 = ex.0.len() as int;
    let n3 = be.0.len() as int;
    let xi = x as int;
    if explicit_id(ia[xi]) {
        assert(kept(ia, xi)) by {
            assert forall|j: int| xi < j < ia.len() implies ia[j] != ia[xi] by {
                assert(a[j].id@ != a[xi].id@);
            }
        }
    }
    if kept(ia, xi) && kept_with(ib, ia[xi]) is Some {
        lemma_id_pairs_cover(ia, ib, a.len(), xi);
        let m = choose|m: int| 0 <= m < ip.len() && #[trigger] ip[m].0 == x;
        assert((ip + ex.0 + be.0)[m] == ip[m]);
        assert(all[m] == x);
    } else {
        let pa = |i: usize| !explicit_id(ia[i as int]);
        let pb = |i: usize| kept(ia, i as int) && kept_with(ib, ia[i as int]) is None;
        let la = indices_where(ia.len(), pa);
        let lb = indices_where(ia.len(), pb);
        assert(au == la + lb);
        let pos: int = if pa(x) {
            lemma_indices_contain(ia.len(), pa, x);
            let m = choose|m: int| 0 <= m < la.len() && la[m] == x;
            assert(au[m] == x);
            m
        } else {
            assert(pb(x));
            lemma_indices_contain(ia.len(), pb, x);
            let m = choose|m: int| 0 <= m < lb.len() && lb[m] == x;
            assert(au[la.len() + m] == x);
            la.len() + m
        };
        assert(0 <= pos < au.len() && au[pos] == x);
        if s1.0.contains(pos) {
            let m1 = choose|m: int| 0 <= m < s1.0.len() && s1.0[m] == pos;
            assert(ex.0[m1].0 == x);
            assert((ip + ex.0 + be.0)[n1 + m1] == ex.0[m1]);
            assert(all[n1 + m1] == x);
        } else {
            let m2 = choose|m: int| 0 <= m < s1.1.len() && s1.1[m] == pos;
            assert(ex.2[m2] == x);
            if s2.0.contains(m2) {
                let m3 = choose|m: int| 0 <= m < s2.0.len() && s2.0[m] == m2;
                assert(be.0[m3].0 == x);
                assert((ip + ex.0 + be.0)[n1 + n2 + m3] == be.0[m3]);
                assert(all[n1 + n2 + m3] == x);
            } else {
                let m4 = choose|m: int| 0 <= m < s2.1.len() && s2.1[m] == m2;
                assert(be.2[m4] == x);
                assert(all[n1 + n2 + n3 + m4] == x);
            }
        }
    }
}


/// A candidate marked taken by the exact pass was taken before it or is
/// the second of one of its pairs.
proof fn lemma_exact_taken(fit: spec_fn(usize, usize) -> Option<u64>, au: Seq<usize>, bu: Seq<usize>, t0: Seq<bool>, k: nat)
    requires
        k <= au.len(),
        t0.len() == bu.len(),
    ensures
        run_exact(fit, au, bu, t0, k).1.len() == t0.len(),
        forall|q: int| 0 <= q < t0.len() && #[trigger] run_exact(fit, au, bu, t0, k).1[q] ==> t0[q]
            || exists|m: int| 0 <= m < run_exact(fit, au, bu, t0, k).0.len() && run_exact(fit, au, bu, t0, k).0[m].1 == bu[q],
    decreases k,
{
    if k > 0 {
        lemma_exact_taken(fit, au, bu, t0, (k - 1) as nat);
        let r = run_exact(fit, au, bu, t0, (k - 1) as nat);
        let cur = run_exact(fit, au, bu, t0, k);
        let ai = au[k - 1];
        lemma_first_exact_fits(fit, ai, bu, r.1, bu.len());
        assert forall|q: int| 0 <= q < t0.len() && #[trigger] cur.1[q] implies t0[q]
            || exists|m: int| 0 <= m < cur.0.len() && cur.0[m].1 == bu[q] by {
            match first_exact(fit, ai, bu, r.1, bu.len()) {
                Some(qq) => {
                    assert(cur.0 == r.0.push((ai, bu[qq as int])));
                    if q == qq {
                        assert(cur.0[r.0.len() as int].1 == bu[q]);
                    } else if !t0[q] {
                        assert(r.1[q]);
                        let m = choose|m: int| 0 <= m < r.0.len() && r.0[m].1 == bu[q];
                        assert(cur.0[m] == r.0[m]);
                    }
                },
                None => {
                    assert(cur.0 == r.0 && cur.1 == r.1);
                    if !t0[q] {
                        assert(r.1[q]);
                        let m = choose|m: int| 0 <= m < r.0.len() && r.0[m].1 == bu[q];
                        assert(cur.0[m] == r.0[m]);
                    }
                },
            }
        }
    }
}

/// The same for the closest-match pass.
proof fn lemma_best_taken(fit: spec_fn(usize, usize) -> Option<u64>, au: Seq<usize>, bu: Seq<usize>, t0: Seq<bool>, k: nat)
    requires
        k <= au.len(),
        t0.len() == bu.len(),
    ensures
        run_best(fit, au, bu, t0, k).1.len() == t0.len(),
        forall|q: int| 0 <= q < t0.len() && #[trigger] run_best(fit, au, bu, t0, k).1[q] ==> t0[q]
            || exists|m: int| 0 <= m < run_best(fit, au, bu, t0, k).0.len() && run_best(fit, au, bu, t0, k).0[m].1 == bu[q],
    decreases k,
{
    if k > 0 {
        lemma_best_taken(fit, au, bu, t0, (k - 1) as nat);
        let r = run_best(fit, au, bu, t0, (k - 1) as nat);
        let cur = run_best(fit, au, bu, t0, k);
        let ai = au[k - 1];
        lemma_best_upto_fits(fit, ai, bu, r.1, bu.len());
        assert forall|q: int| 0 <= q < t0.len() && #[trigger] cur.1[q] implies t0[q]
            || exists|m: int| 0 <= m < cur.0.len() && cur.0[m].1 == bu[q] by {
            match best_upto(fit, ai, bu, r.1, bu.len()) {
                Some(bd) => {
                    if float_lt(bd.1, MAX_DISTANCE_BITS) {
                        assert(cur.0 == r.0.push((ai, bu[bd.0 as int])));
                        if q == bd.0 {
                            assert(cur.0[r.0.len() as int].1 == bu[q]);
                        } else if !t0[q] {
                            assert(r.1[q]);
                            let m = choose|m: int| 0 <= m < r.0.len() && r.0[m].1 == bu[q];
                            assert(cur.0[m] == r.0[m]);
                        }
                    } else {
                        assert(cur.0 == r.0 && cur.1 == r.1);
                        if !t0[q] {
                            assert(r.1[q]);
                            let m = choose|m: int| 0 <= m < r.0.len() && r.0[m].1 == bu[q];
                            assert(cur.0[m] == r.0[m]);
                        }
                    }
                },
                None => {
                    assert(cur.0 == r.0 && cur.1 == r.1);
                    if !t0[q] {
                        assert(r.1[q]);
                        let m = choose|m: int| 0 <= m < r.0.len() && r.0[m].1 == bu[q];
                        assert(cur.0[m] == r.0[m]);
                    }
                },
            }
        }
    }
}

proof fn lemma_untaken_contains(bu: Seq<usize>, t: Seq<bool>, q: nat, y: int)
    requires
        0 <= y < q,
        q <= t.len(),
        q <= bu.len(),
        !t[y],
    ensures
        untaken(bu, t, q).contains(bu[y]),
    decreases q,
{
    let r = untaken(bu, t, (q - 1) as nat);
    if y == q - 1 {
        assert(untaken(bu, t, q)[r.len() as int] == bu[y]);
    } else {
        lemma_untaken_contains(bu, t, (q - 1) as nat, y);
        let m = choose|m: int| 0 <= m < r.len() && r[m] == bu[y];
        if !t[q - 1] {
            assert(untaken(bu, t, q)[m] == bu[y]);
        }
    }
}

/// When no explicit id repeats on the second side, every entry of that
/// side is accounted for: it is the second of a pair or among the added
/// entries (and, with `law_second_side_used_once`, exactly one of them,
/// once).
pub proof fn law_second_side_accounted(a: Seq<DiffEntry>, b: Seq<DiffEntry>, sc: Seq<Seq<u64>>, y: usize)
    requires
        a.len() <= usize::MAX,
        b.len() <= usize::MAX,
        explicit_ids_distinct(b),
        y < b.len(),
    ensures
        (pairing(a, b, sc).0.map_values(|p: (usize, usize)| p.1) + pairing(a, b, sc).2).contains(y),
{
    let ia = entry_ids(a);
    let ib = entry_ids(b);
    let au = leftovers(ia, ib);
    let bu = leftovers(ib, ia);
    let fit = fitness(a, b, sc);
    let t0 = Seq::new(bu.len(), |i: int| false);
    let ex = run_exact(fit, au, bu, t0, au.len());
    let be = run_best(fit, ex.2, bu, ex.1, ex.2.len());
    let ip = id_pairs(ia, ib, a.len());
    let added = untaken(bu, be.1, bu.len());
    let all = (ip + ex.0 + be.0).map_values(|p: (usize, usize)| p.1) + added;
    assert(pairing(a, b, sc).0 == ip + ex.0 + be.0);
    assert(pairing(a, b, sc).2 == added);
    assert(pairing(a, b, sc).0.map_values(|p: (usize, usize)| p.1) + pairing(a, b, sc).2 =~= all);
    let n1 = ip.len() as int;
    let n2 = ex.0.len() as int;
    let n3 = be.0.len() as int;
    let yi = y as int;
    if explicit_id(ib[yi]) {
        assert(kept(ib, yi)) by {
            assert forall|j: int| yi < j < ib.len() implies ib[j] != ib[yi] by {
                assert(b[j].id@ != b[yi].id@);
            }
        }
    }
    if kept(ib, yi) && kept_with(ia, ib[yi]) is Some {
        let x = kept_with(ia, ib[yi])->0;
        assert(0 <= x < ia.len() && kept(ia, x) && ia[x] == ib[yi]);
        assert(kept_with(ib, ia[x]) is Some);
        lemma_id_pairs_cover(ia, ib, a.len(), x);
        lemma_id_pairs_kept(ia, ib, a.len());
        let m = choose|m: int| 0 <= m < ip.len() && #[trigger] ip[m].0 == x;
        let pr = ip[m];
        assert(kept(ib, pr.1 as int) && ia[pr.0 as int] == ib[pr.1 as int]);
        lemma_kept_unique(ib, pr.1 as int, yi);
        assert((ip + ex.0 + be.0)[m] == ip[m]);
        assert(all[m] == y);
    } else {
        let pa = |i: usize| !explicit_id(ib[i as int]);
        let pb = |i: usize| kept(ib, i as int) && kept_with(ia, ib[i as int]) is None;
        let la = indices_where(ib.len(), pa);
        let lb = indices_where(ib.len(), pb);
        assert(bu == la + lb);
        let pos: int = if pa(y) {
            lemma_indices_contain(ib.len(), pa, y);
            let m = choose|m: int| 0 <= m < la.len() && la[m] == y;
            assert(bu[m] == y);
            m
        } else {
            assert(pb(y));
            lemma_indices_contain(ib.len(), pb, y);
            let m = choose|m: int| 0 <= m < lb.len() && lb[m] == y;
            assert(bu[la.len() + m] == y);
            la.len() + m
        };
        assert(0 <= pos < bu.len() && bu[pos] == y);
        lemma_exact_taken(fit, au, bu, t0, au.len());
        lemma_best_taken(fit, ex.2, bu, ex.1, ex.2.len());
        if be.1[pos] {
            if ex.1[pos] {
                assert(!t0[pos]);
                let m = choose|m: int| 0 <= m < ex.0.len() && ex.0[m].1 == bu[pos];
                assert((ip + ex.0 + be.0)[n1 + m] == ex.0[m]);
                assert(all[n1 + m] == y);
            } else {
                let m = choose|m: int| 0 <= m < be.0.len() && be.0[m].1 == bu[pos];
                assert((ip + ex.0 + be.0)[n1 + n2 + m] == be.0[m]);
                assert(all[n1 + n2 + m] == y);
            }
        } else {
            lemma_untaken_contains(bu, be.1, bu.len(), pos);
            let m = choose|m: int| 0 <= m < added.len() && added[m] == y;
            assert(all[n1 + n2 + n3 + m] == y);
        }
    }
}


/// A sequence of distinct indices below `n` that holds each of them has
/// exactly `n` entries.
proof fn lemma_all_indices(s: Seq<usize>, n: nat)
    requires
        s.no_duplicates(),
        forall|i: int| 0 <= i < s.len() ==> (#[trigger] s[i]) < n,
        forall|x: usize| x < n ==> #[trigger] s.contains(x),
        n <= usize::MAX,
    ensures
        s.len() == n,
{
    let t = s.map_values(|v: usize| v as int);
    assert(t.no_duplicates()) by {
        assert forall|i: int, j: int| 0 <= i < t.len() && 0 <= j < t.len() && i != j implies t[i] != t[j] by {
            assert(s[i] != s[j]);
        }
    }
    assert(t.to_set() =~= set_int_range(0, n as int)) by {
        assert forall|v: int| #[trigger] t.to_set().contains(v) <==> set_int_range(0, n as int).contains(v) by {
            if set_int_range(0, n as int).contains(v) {
                let x = v as usize;
                assert(s.contains(x));
                let i = choose|i: int| 0 <= i < s.len() && s[i] == x;
                assert(t[i] == v);
            }
            if t.to_set().contains(v) {
                let i = choose|i: int| 0 <= i < t.len() && t[i] == v;
                assert(s[i] < n);
            }
        }
    }
    t.unique_seq_to_set();
    lemma_int_range(0, n as int);
}

/// The pairs of an exact pass pair candidates of `bu`.
proof fn lemma_exact_seconds(fit: spec_fn(usize, usize) -> Option<u64>, au: Seq<usize>, bu: Seq<usize>, t0: Seq<bool>, k: nat)
    requires
        k <= au.len(),
    ensures
        forall|m: int| 0 <= m < run_exact(fit, au, bu, t0, k).0.len() ==>
            exists|q: int| 0 <= q < bu.len() && #[trigger] run_exact(fit, au, bu, t0, k).0[m].1 == bu[q],
    decreases k,
{
    if k > 0 {
        lemma_exact_seconds(fit, au, bu, t0, (k - 1) as nat);
        let r = run_exact(fit, au, bu, t0, (k - 1) as nat);
        let cur = run_exact(fit, au, bu, t0, k);
        let ai = au[k - 1];
        lemma_first_exact_fits(fit, ai, bu, r.1, bu.len());
        assert forall|m: int| 0 <= m < cur.0.len() implies exists|q: int| 0 <= q < bu.len() && #[trigger] cur.0[m].1 == bu[q] by {
            if m < r.0.len() {
                assert(cur.0[m] == r.0[m]);
            } else {
                let qq = first_exact(fit, ai, bu, r.1, bu.len())->0;
                assert(cur.0[m].1 == bu[qq as int]);
            }
        }
    }
}

/// The pairs of a closest-match pass pair candidates of `bu`.
proof fn lemma_best_seconds(fit: spec_fn(usize, usize) -> Option<u64>, au: Seq<usize>, bu: Seq<usize>, t0: Seq<bool>, k: nat)
    requires
        k <= au.len(),
    ensures
        forall|m: int| 0 <= m < run_best(fit, au, bu, t0, k).0.len() ==>
            exists|q: int| 0 <= q < bu.len() && #[trigger] run_best(fit, au, bu, t0, k).0[m].1 == bu[q],
    decreases k,
{
    if k > 0 {
        lemma_best_seconds(fit, au, bu, t0, (k - 1) as nat);
        let r = run_best(fit, au, bu, t0, (k - 1) as nat);
        let cur = run_best(fit, au, bu, t0, k);
        let ai = au[k - 1];
        lemma_best_upto_fits(fit, ai, bu, r.1, bu.len());
        assert forall|m: int| 0 <= m < cur.0.len() implies exists|q: int| 0 <= q < bu.len() && #[trigger] cur.0[m].1 == bu[q] by {
            if m < r.0.len() {
                assert(cur.0[m] == r.0[m]);
            } else {
                let bd = best_upto(fit, ai, bu, r.1, bu.len())->0;
                assert(cur.0[m].1 == bu[bd.0 as int]);
            }
        }
    }
}

proof fn lemma_untaken_from(bu: Seq<usize>, t: Seq<bool>, q: nat)
    requires
        q <= bu.len(),
        q <= t.len(),
    ensures
        forall|m: int| 0 <= m < untaken(bu, t, q).len() ==> exists|p: int| 0 <= p < bu.len() && #[trigger] untaken(bu, t, q)[m] == bu[p],
    decreases q,
{
    if q > 0 {
        lemma_untaken_from(bu, t, (q - 1) as nat);
        let r = untaken(bu, t, (q - 1) as nat);
        assert forall|m: int| 0 <= m < untaken(bu, t, q).len() implies exists|p: int| 0 <= p < bu.len() && #[trigger] untaken(bu, t, q)[m] == bu[p] by {
            if m < r.len() {
                assert(untaken(bu, t, q)[m] == r[m]);
            } else {
                assert(untaken(bu, t, q)[m] == bu[q - 1]);
            }
        }
    }
}

/// With no explicit id repeated on either side, the pairs and the removed
/// entries are as many as the first side's entries, and the pairs and the
/// added entries as many as the second side's: every entry is accounted
/// for exactly once.
pub proof fn law_pairing_counts(a: Seq<DiffEntry>, b: Seq<DiffEntry>, sc: Seq<Seq<u64>>)
    requires
        a.len() <= usize::MAX,
        b.len() <= usize::MAX,
        explicit_ids_distinct(a),
        explicit_ids_distinct(b),
    ensures
        pairing(a, b, sc).0.len() + pairing(a, b, sc).1.len() == a.len(),
        pairing(a, b, sc).0.len() + pairing(a, b, sc).2.len() == b.len(),
{
    let ia = entry_ids(a);
    let ib = entry_ids(b);
    let au = leftovers(ia, ib);
    let bu = leftovers(ib, ia);
    let fit = fitness(a, b, sc);
    let t0 = Seq::new(bu.len(), |i: int| false);
    let ex = run_exact(fit, au, bu, t0, au.len());
    let s1 = lemma_exact_split(fit, au, bu, t0, au.len());
    let be = run_best(fit, ex.2, bu, ex.1, ex.2.len());
    let s2 = lemma_best_split(fit, ex.2, bu, ex.1, ex.2.len());
    let ip = id_pairs(ia, ib, a.len());
    lemma_id_pairs_kept(ia, ib, a.len());
    lemma_leftovers(ia, ib);
    lemma_leftovers(ib, ia);
    let ps = ip + ex.0 + be.0;
    assert(pairing(a, b, sc).0 == ps);
    let n1 = ip.len() as int;
    let n2 = ex.0.len() as int;
    let n3 = be.0.len() as int;
    // First side.
    let all1 = ps.map_values(|p: (usize, usize)| p.0) + be.2;
    assert(pairing(a, b, sc).0.map_values(|p: (usize, usize)| p.0) + pairing(a, b, sc).1 =~= all1);
    law_first_side_used_once(a, b, sc);
    assert forall|x: usize| x < a.len() implies #[trigger] all1.contains(x) by {
        law_first_side_accounted(a, b, sc, x);
    }
    assert forall|k: int| 0 <= k < all1.len() implies (#[trigger] all1[k]) < a.len() by {
        if k < n1 {
            assert(ps[k] == ip[k]);
        } else if k < n1 + n2 {
            assert(ps[k] == ex.0[k - n1]);
            assert(ex.0[k - n1].0 == au[s1.0[k - n1]]);
        } else if k < n1 + n2 + n3 {
            assert(ps[k] == be.0[k - n1 - n2]);
            let j = s2.0[k - n1 - n2];
            assert(be.0[k - n1 - n2].0 == ex.2[j]);
            assert(ex.2[j] == au[s1.1[j]]);
        } else {
            let j = s2.1[k - n1 - n2 - n3];
            assert(all1[k] == be.2[k - n1 - n2 - n3]);
            assert(be.2[k - n1 - n2 - n3] == ex.2[j]);
            assert(ex.2[j] == au[s1.1[j]]);
        }
    }
    lemma_all_indices(all1, a.len());
    // Second side.
    let added = untaken(bu, be.1, bu.len());
    lemma_exact_taken(fit, au, bu, t0, au.len());
    lemma_best_taken(fit, ex.2, bu, ex.1, ex.2.len());
    let all2 = ps.map_values(|p: (usize, usize)| p.1) + added;
    assert(pairing(a, b, sc).0.map_values(|p: (usize, usize)| p.1) + pairing(a, b, sc).2 =~= all2);
    law_second_side_used_once(a, b, sc);
    assert forall|y: usize| y < b.len() implies #[trigger] all2.contains(y) by {
        law_second_side_accounted(a, b, sc, y);
    }
    lemma_exact_seconds(fit, au, bu, t0, au.len());
    lemma_best_seconds(fit, ex.2, bu, ex.1, ex.2.len());
    lemma_untaken_from(bu, be.1, bu.len());
    assert forall|k: int| 0 <= k < all2.len() implies (#[trigger] all2[k]) < b.len() by {
        if k < n1 {
            assert(ps[k] == ip[k]);
        } else if k < n1 + n2 {
            assert(ps[k] == ex.0[k - n1]);
            let q = choose|q: int| 0 <= q < bu.len() && ex.0[k - n1].1 == bu[q];
        } else if k < n1 + n2 + n3 {
            assert(ps[k] == be.0[k - n1 - n2]);
            let q = choose|q: int| 0 <= q < bu.len() && be.0[k - n1 - n2].1 == bu[q];
        } else {
            assert(all2[k] == added[k - n1 - n2 - n3]);
            let q = choose|q: int| 0 <= q < bu.len() && added[k - n1 - n2 - n3] == bu[q];
        }
    }
    lemma_all_indices(all2, b.len());
}

} // verus!

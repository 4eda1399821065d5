//! Ligature substitution over a run of glyph ids: greedy, left to right,
//! longest match first. The ligature tables are the font's GSUB ligature
//! subtables, read out of the font file by the caller.
use vstd::prelude::*;

verus! {

/// A ligature: the glyphs that follow the first one, and the glyph that
/// replaces the whole run.
pub struct Ligature {
    pub components: Vec<u16>,
    pub glyph: u16,
}

/// The ligatures that start with glyph `first`, in table order.
pub struct LigatureSet {
    pub first: u16,
    pub ligatures: Vec<Ligature>,
}

/// One ligature subtable: the sets of its covered glyphs.
pub struct LigatureTable {
    pub sets: Vec<LigatureSet>,
}

/// The first set of the first `n` sets of a table that starts with `g`.
pub open spec fn set_for(sets: Seq<LigatureSet>, g: u16, n: nat) -> Option<nat>
    decreases n,
{
    if n == 0 {
        None
    } else {
        match set_for(sets, g, (n - 1) as nat) {
            Some(p) => Some(p),
            None => if sets[n - 1].first == g { Some((n - 1) as nat) } else { None },
        }
    }
}

/// The glyphs after position `i` are the ligature's components.
pub open spec fn components_match(glyphs: Seq<u16>, i: nat, comps: Seq<u16>) -> bool {
    i + 1 + comps.len() <= glyphs.len()
        && forall|k: int| 0 <= k < comps.len() ==> glyphs[i + 1 + k] == #[trigger] comps[k]
}

/// The best match so far after looking at the first `n` ligatures of a
/// set, starting from `best`: a matching ligature longer than the best
/// one replaces it, and one of four glyphs ends the search (`true`).
pub open spec fn scan_ligatures(ligs: Seq<Ligature>, glyphs: Seq<u16>, i: nat, n: nat, best: Option<(nat, u16)>) -> (Option<(nat, u16)>, bool)
    decreases n,
{
    if n == 0 {
        (best, false)
    } else {
        let prev = scan_ligatures(ligs, glyphs, i, (n - 1) as nat, best);
        if prev.1 {
            prev
        } else {
            let lig = ligs[n - 1];
            let total = 1 + lig.components@.len();
            if components_match(glyphs, i, lig.components@) && (match prev.0 {
                None => true,
                Some(b) => total > b.0,
            }) {
                (Some((total, lig.glyph)), total == 4)
            } else {
                prev
            }
        }
    }
}

/// The best match at position `i` over the first `n` tables, in order:
/// each table's set for the glyph at `i` is scanned, until a search ends.
pub open spec fn scan_tables(tables: Seq<LigatureTable>, glyphs: Seq<u16>, i: nat, n: nat) -> (Option<(nat, u16)>, bool)
    decreases n,
{
    if n == 0 {
        (None, false)
    } else {
        let prev = scan_tables(tables, glyphs, i, (n - 1) as nat);
        if prev.1 {
            prev
        } else {
            let sets = tables[n - 1].sets@;
            match set_for(sets, glyphs[i as int], sets.len()) {
                Some(p) => {
                    let ligs = sets[p as int].ligatures@;
                    scan_ligatures(ligs, glyphs, i, ligs.len(), prev.0)
                },
                None => prev,
            }
        }
    }
}

/// The run after substituting from position `i` on: glyph 0 never
/// matches; at a match the ligature glyph replaces the matched glyphs and
/// the scan goes on after it.
pub open spec fn substituted(tables: Seq<LigatureTable>, glyphs: Seq<u16>, i: nat) -> Seq<u16>
    decreases glyphs.len() - i,
{
    if i >= glyphs.len() {
        glyphs
    } else if glyphs[i as int] == 0 {
        substituted(tables, glyphs, i + 1)
    } else {
        match scan_tables(tables, glyphs, i, tables.len()).0 {
            Some((total, lig)) => {
                if 1 <= total && i + total <= glyphs.len() {
                    substituted(tables, glyphs.subrange(0, i as int) + seq![lig] + glyphs.subrange((i + total) as int, glyphs.len() as int), i + 1)
                } else {
                    substituted(tables, glyphs, i + 1)
                }
            },
            None => substituted(tables, glyphs, i + 1),
        }
    }
}

proof fn lemma_set_for(sets: Seq<LigatureSet>, g: u16, n: nat)
    requires
        n <= sets.len(),
    ensures
        set_for(sets, g, n) matches Some(p) ==> p < n && sets[p as int].first == g,
    decreases n,
{
    if n > 0 {
        lemma_set_for(sets, g, (n - 1) as nat);
    }
}

proof fn lemma_set_for_stable(sets: Seq<LigatureSet>, g: u16, n1: nat, n2: nat)
    requires
        n1 <= n2,
        set_for(sets, g, n1) is Some,
    ensures
        set_for(sets, g, n2) == set_for(sets, g, n1),
    decreases n2,
{
    if n2 > n1 {
        lemma_set_for_stable(sets, g, n1, (n2 - 1) as nat);
    }
}

proof fn lemma_scan_ligatures_len(ligs: Seq<Ligature>, glyphs: Seq<u16>, i: nat, n: nat, best: Option<(nat, u16)>)
    requires
        n <= ligs.len(),
        best matches Some(b) ==> 1 <= b.0 && i + b.0 <= glyphs.len(),
    ensures
        scan_ligatures(ligs, glyphs, i, n, best).0 matches Some(b) ==> 1 <= b.0 && i + b.0 <= glyphs.len(),
    decreases n,
{
    if n > 0 {
        lemma_scan_ligatures_len(ligs, glyphs, i, (n - 1) as nat, best);
    }
}

proof fn lemma_scan_tables_len(tables: Seq<LigatureTable>, glyphs: Seq<u16>, i: nat, n: nat)
    requires
        n <= tables.len(),
        i < glyphs.len(),
    ensures
        scan_tables(tables, glyphs, i, n).0 matches Some(b) ==> 1 <= b.0 && i + b.0 <= glyphs.len(),
    decreases n,
{
    if n > 0 {
        lemma_scan_tables_len(tables, glyphs, i, (n - 1) as nat);
        let prev = scan_tables(tables, glyphs, i, (n - 1) as nat);
        if !prev.1 {
            let sets = tables[n - 1].sets@;
            lemma_set_for(sets, glyphs[i as int], sets.len());
            if let Some(p) = set_for(sets, glyphs[i as int], sets.len()) {
                let ligs = sets[p as int].ligatures@;
                lemma_scan_ligatures_len(ligs, glyphs, i, ligs.len(), prev.0);
            }
        }
    }
}

fn find_set(sets: &Vec<LigatureSet>, g: u16) -> (r: Option<usize>)
    ensures
        r is None <==> set_for(sets@, g, sets@.len()) is None,
        r matches Some(p) ==> set_for(sets@, g, sets@.len()) == Some(p as nat) && p < sets@.len(),
{
    let n = sets.len();
    let mut k: usize = 0;
    while k < n
        invariant
            k <= n,
            n == sets@.len(),
            set_for(sets@, g, k as nat) is None,
        decreases n - k,
    {
        if sets[k].first == g {
            proof {
                lemma_set_for_stable(sets@, g, (k + 1) as nat, n as nat);
            }
            return Some(k);
        }
        k += 1;
    }
    None
}

fn matches_at(glyphs: &Vec<u16>, i: usize, comps: &Vec<u16>) -> (r: bool)
    ensures
        r == components_match(glyphs@, i as nat, comps@),
{
    let n = glyphs.len();
    let m = comps.len();
    if i >= n || m > n - i - 1 {
        return false;
    }
    let mut k: usize = 0;
    while k < m
        invariant
            k <= m,
            m == comps@.len(),
            n == glyphs@.len(),
            i + 1 + m <= n,
            forall|q: int| 0 <= q < k ==> glyphs@[i + 1 + q] == #[trigger] comps@[q],
        decreases m - k,
    {
        if glyphs[i + 1 + k] != comps[k] {
            return false;
        }
        k += 1;
    }
    true
}

/// The best ligature at position `i`: its length (the first glyph
/// included) and glyph.
fn best_at(tables: &Vec<LigatureTable>, glyphs: &Vec<u16>, i: usize) -> (r: Option<(usize, u16)>)
    requires
        i < glyphs@.len(),
    ensures
        match scan_tables(tables@, glyphs@, i as nat, tables@.len()).0 {
            Some((t, g)) => r == Some((t as usize, g)),
            None => r is None,
        },
{
    let g = glyphs[i];
    let n_glyphs = glyphs.len();
    let mut best: Option<(usize, u16)> = None;
    let mut stop = false;
    let nt = tables.len();
    let mut ti: usize = 0;
    while ti < nt && !stop
        invariant
            ti <= nt,
            nt == tables@.len(),
            i < glyphs@.len(),
            n_glyphs == glyphs@.len(),
            g == glyphs@[i as int],
            ({
                let s = scan_tables(tables@, glyphs@, i as nat, ti as nat);
                &&& stop == s.1
                &&& match s.0 {
                    Some((t, lg)) => best == Some((t as usize, lg)) && 1 <= t && i + t <= glyphs@.len(),
                    None => best is None,
                }
            }),
        decreases nt - ti,
    {
        let sets = &tables[ti].sets;
        proof {
            lemma_scan_tables_len(tables@, glyphs@, i as nat, (ti + 1) as nat);
        }
        match find_set(sets, g) {
            Some(p) => {
                let ligs = &sets[p].ligatures;
                let nl = ligs.len();
                let ghost start = scan_tables(tables@, glyphs@, i as nat, ti as nat).0;
                let mut li: usize = 0;
                while li < nl && !stop
                    invariant
                        li <= nl,
                        nl == ligs@.len(),
                        i < glyphs@.len(),
                        n_glyphs == glyphs@.len(),
                        ({
                            let s = scan_ligatures(ligs@, glyphs@, i as nat, li as nat, start);
                            &&& stop == s.1
                            &&& match s.0 {
                                Some((t, lg)) => best == Some((t as usize, lg)) && 1 <= t && i + t <= glyphs@.len(),
                                None => best is None,
                            }
                        }),
                    decreases nl - li,
                {
                    let lig = &ligs[li];
                    let ok = matches_at(glyphs, i, &lig.components);
                    if ok {
                        let total = 1 + lig.components.len();
                        let better = match best {
                            None => true,
                            Some((bt, _)) => total > bt,
                        };
                        if better {
                            best = Some((total, lig.glyph));
                            if total == 4 {
                                stop = true;
                            }
                        }
                    }
                    li += 1;
                }
                proof {
                    if stop && li < nl {
                        lemma_scan_ligatures_stopped(ligs@, glyphs@, i as nat, li as nat, nl as nat, start);
                    }
                }
            },
            None => {},
        }
        ti += 1;
    }
    proof {
        if stop && ti < nt {
            lemma_scan_tables_stopped(tables@, glyphs@, i as nat, ti as nat, nt as nat);
        }
    }
    best
}

proof fn lemma_scan_ligatures_stopped(ligs: Seq<Ligature>, glyphs: Seq<u16>, i: nat, n1: nat, n2: nat, best: Option<(nat, u16)>)
    requires
        n1 <= n2,
        scan_ligatures(ligs, glyphs, i, n1, best).1,
    ensures
        scan_ligatures(ligs, glyphs, i, n2, best) == scan_ligatures(ligs, glyphs, i, n1, best),
    decreases n2,
{
    if n2 > n1 {
        lemma_scan_ligatures_stopped(ligs, glyphs, i, n1, (n2 - 1) as nat, best);
    }
}

proof fn lemma_scan_tables_stopped(tables: Seq<LigatureTable>, glyphs: Seq<u16>, i: nat, n1: nat, n2: nat)
    requires
        n1 <= n2,
        scan_tables(tables, glyphs, i, n1).1,
    ensures
        scan_tables(tables, glyphs, i, n2) == scan_tables(tables, glyphs, i, n1),
    decreases n2,
{
    if n2 > n1 {
        lemma_scan_tables_stopped(tables, glyphs, i, n1, (n2 - 1) as nat);
    }
}

/// Replace ligature runs in `glyphs`, scanning left to right: at each
/// glyph (glyph 0 never matches) the longest matching ligature over the
/// tables in order is taken (the first of equally long ones; a ligature of
/// four glyphs ends the search), and the scan goes on after the ligature
/// glyph.
pub fn apply_liga_substitutions(tables: &Vec<LigatureTable>, glyphs: &mut Vec<u16>)
    ensures
        final(glyphs)@ == substituted(tables@, old(glyphs)@, 0),
{
    let mut i: usize = 0;
    while i < glyphs.len()
        invariant
            i <= glyphs@.len(),
            substituted(tables@, glyphs@, i as nat) == substituted(tables@, old(glyphs)@, 0),
        decreases glyphs@.len() - i,
    {
        if glyphs[i] == 0 {
            i += 1;
            continue;
        }
        match best_at(tables, glyphs, i) {
            Some((total, lig)) => {
                proof {
                    lemma_scan_tables_len(tables@, glyphs@, i as nat, tables@.len());
                }
                let ghost before = glyphs@;
                glyphs.set(i, lig);
                let len_now = glyphs.len();
                assert(glyphs@ =~= before.subrange(0, i as int) + seq![lig] + before.subrange((i + 1) as int, before.len() as int));
                let mut k: usize = 1;
                while k < total
                    invariant
                        1 <= k <= total,
                        i + total <= before.len(),
                        len_now == before.len(),
                        glyphs@ == before.subrange(0, i as int) + seq![lig] + before.subrange((i + k) as int, before.len() as int),
                    decreases total - k,
                {
                    assert(glyphs@.len() == before.len() - k + 1);
                    glyphs.remove(i + 1);
                    assert(glyphs@ =~= before.subrange(0, i as int) + seq![lig] + before.subrange((i + k + 1) as int, before.len() as int));
                    k += 1;
                }
                assert(glyphs@ =~= before.subrange(0, i as int) + seq![lig] + before.subrange((i + total) as int, before.len() as int));
                i += 1;
            },
            None => {
                i += 1;
            },
        }
    }
    assert(substituted(tables@, glyphs@, i as nat) == glyphs@);
}


/// The feature list of the first script (in the order given) whose chosen
/// language lists any features; empty when none does.
pub open spec fn base_features(langs: Seq<Option<Vec<u16>>>) -> Seq<u16>
    decreases langs.len(),
{
    if langs.len() == 0 {
        Seq::empty()
    } else {
        match langs[0] {
            Some(v) => if v@.len() > 0 { v@ } else { base_features(langs.drop_first()) },
            None => base_features(langs.drop_first()),
        }
    }
}

/// `s` with `x` appended when it is given and not yet listed.
pub open spec fn with_feature(s: Seq<u16>, x: Option<u16>) -> Seq<u16> {
    match x {
        Some(f) => if s.contains(f) { s } else { s.push(f) },
        None => s,
    }
}

/// Whether feature index `f` is the `liga` or the `dlig` feature.
pub open spec fn is_wanted(f: u16, liga: Option<u16>, dlig: Option<u16>) -> bool {
    liga == Some(f) || dlig == Some(f)
}

/// The entries of `s` that are `liga` or `dlig`, in order.
pub open spec fn wanted_only(s: Seq<u16>, liga: Option<u16>, dlig: Option<u16>) -> Seq<u16>
    decreases s.len(),
{
    if s.len() == 0 {
        Seq::empty()
    } else if is_wanted(s.last(), liga, dlig) {
        wanted_only(s.drop_last(), liga, dlig).push(s.last())
    } else {
        wanted_only(s.drop_last(), liga, dlig)
    }
}

/// The GSUB features whose ligatures are applied, in order: the features
/// of the chosen language of the first script that lists any, then `liga`
/// and `dlig` where not yet listed, keeping only `liga` and `dlig`.
pub open spec fn selected_features(langs: Seq<Option<Vec<u16>>>, liga: Option<u16>, dlig: Option<u16>) -> Seq<u16> {
    wanted_only(with_feature(with_feature(base_features(langs), liga), dlig), liga, dlig)
}

fn push_new(v: &mut Vec<u16>, x: Option<u16>)
    ensures
        final(v)@ == with_feature(old(v)@, x),
{
    if let Some(f) = x {
        let n = v.len();
        let mut i: usize = 0;
        while i < n
            invariant
                n == v@.len(),
                i <= n,
                v@ == old(v)@,
                x == Some(f),
                forall|j: int| 0 <= j < i ==> v@[j] != f,
            decreases n - i,
        {
            if v[i] == f {
                assert(v@[i as int] == f);
                assert(old(v)@.contains(f));
                assert(with_feature(old(v)@, x) == old(v)@);
                return;
            }
            i += 1;
        }
        assert(!v@.contains(f));
        v.push(f);
    }
}

/// Which GSUB features (by index) to take ligatures from. `langs` holds,
/// for each preferred script in order (`latn`, then `DFLT`), the feature
/// indices of its default language, else of its first language (`None`
/// when the font lacks the script or it has no language); `liga` and
/// `dlig` are the indices of those features, if the font has them.
pub fn ligature_feature_indices(langs: &Vec<Option<Vec<u16>>>, liga: Option<u16>, dlig: Option<u16>) -> (r: Vec<u16>)
    ensures
        r@ == selected_features(langs@, liga, dlig),
{
    let mut base: Vec<u16> = Vec::new();
    let n = langs.len();
    let mut i: usize = 0;
    let mut done = false;
    assert(langs@.skip(0) =~= langs@);
    while i < n && !done
        invariant
            n == langs@.len(),
            i <= n,
            !done ==> base@.len() == 0,
            !done ==> base_features(langs@) == base_features(langs@.skip(i as int)),
            done ==> base@ == base_features(langs@),
        decreases n - i,
    {
        assert(langs@.skip(i as int).drop_first() =~= langs@.skip(i + 1));
        assert(langs@.skip(i as int)[0] == langs@[i as int]);
        match &langs[i] {
            Some(v) => {
                if v.len() > 0 {
                    let m = v.len();
                    let mut k: usize = 0;
                    while k < m
                        invariant
                            m == v@.len(),
                            k <= m,
                            base@ == v@.take(k as int),
                        decreases m - k,
                    {
                        base.push(v[k]);
                        assert(v@.take(k + 1) =~= v@.take(k as int).push(v@[k as int]));
                        k += 1;
                    }
                    assert(v@.take(m as int) =~= v@);
                    done = true;
                }
            },
            None => {},
        }
        i += 1;
    }
    proof {
        if !done {
            assert(langs@.skip(n as int) =~= Seq::<Option<Vec<u16>>>::empty());
        }
    }
    assert(base@ == base_features(langs@));
    push_new(&mut base, liga);
    push_new(&mut base, dlig);
    let mut out: Vec<u16> = Vec::new();
    let m = base.len();
    let mut k: usize = 0;
    while k < m
        invariant
            m == base@.len(),
            k <= m,
            out@ == wanted_only(base@.take(k as int), liga, dlig),
        decreases m - k,
    {
        assert(base@.take(k + 1).drop_last() =~= base@.take(k as int));
        let f = base[k];
        let keep = match liga {
            Some(l) => l == f,
            None => false,
        } || match dlig {
            Some(d) => d == f,
            None => false,
        };
        if keep {
            out.push(f);
        }
        k += 1;
    }
    assert(base@.take(m as int) =~= base@);
    out
}

} // verus!

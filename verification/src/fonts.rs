//! Font family names: which families are installed and how a CSS-style
//! family list (`"Custom, Inter, sans-serif"`) resolves. Scanning the
//! system for fonts is the caller's part; the catalog holds the family
//! names it found.
use vstd::prelude::*;
use crate::text::{chars_of, trim_class_chars, CharClass, trim, trim_class};
use crate::ordering::swap_adj;
use crate::appearance::FontStyle;

verus! {

/// ASCII upper-case letters become lower-case; other characters stay.
pub open spec fn ascii_lower(c: char) -> char {
    if 'A' <= c && c <= 'Z' { ((c as u32) + 32) as char } else { c }
}

/// Equal up to ASCII case (`str::eq_ignore_ascii_case`).
pub open spec fn eq_ignore_case(a: Seq<char>, b: Seq<char>) -> bool {
    a.len() == b.len() && forall|i: int| 0 <= i < a.len() ==> ascii_lower(#[trigger] a[i]) == ascii_lower(b[i])
}

fn lower_char(c: char) -> (r: char)
    ensures
        r == ascii_lower(c),
{
    if 'A' <= c && c <= 'Z' {
        let v = (c as u32) + 32;
        assert(0x61 <= v <= 0x7A);
        char_from(v)
    } else {
        c
    }
}

fn char_from(v: u32) -> (c: char)
    requires
        0x61 <= v <= 0x7A,
    ensures
        c == v as char,
{
    let b = v as u8;
    b as char
}

pub(crate) fn eq_ignore_case_chars(a: &Vec<char>, b: &Vec<char>) -> (r: bool)
    ensures
        r == eq_ignore_case(a@, b@),
{
    if a.len() != b.len() {
        return false;
    }
    let n = a.len();
    let mut i: usize = 0;
    while i < n
        invariant
            i <= n,
            n == a@.len(),
            n == b@.len(),
            forall|k: int| 0 <= k < i ==> ascii_lower(#[trigger] a@[k]) == ascii_lower(b@[k]),
        decreases n - i,
    {
        if lower_char(a[i]) != lower_char(b[i]) {
            return false;
        }
        i += 1;
    }
    true
}

/// A family name as written in a list entry: white space trimmed, then
/// single quotes, then double quotes stripped from both ends.
pub open spec fn clean_name(s: Seq<char>) -> Seq<char> {
    trim_class(trim_class(trim(s), CharClass::Exactly('\'')), CharClass::Exactly('"'))
}

fn clean_chars(s: &Vec<char>) -> (r: Vec<char>)
    ensures
        r@ == clean_name(s@),
{
    let t = trim_class_chars(s, &CharClass::White);
    let u = trim_class_chars(&t, &CharClass::Exactly('\''));
    trim_class_chars(&u, &CharClass::Exactly('"'))
}

/// The comma-separated entries of `s` (`str::split(',')`): one more entry
/// than there are commas.
pub open spec fn split_commas(s: Seq<char>) -> Seq<Seq<char>>
    decreases s.len(),
{
    if s.len() == 0 {
        seq![Seq::empty()]
    } else {
        let r = split_commas(s.drop_last());
        if s.last() == ',' {
            r.push(Seq::empty())
        } else {
            r.update(r.len() - 1, r.last().push(s.last()))
        }
    }
}

pub proof fn lemma_split_nonempty(s: Seq<char>)
    ensures
        split_commas(s).len() >= 1,
    decreases s.len(),
{
    if s.len() > 0 {
        lemma_split_nonempty(s.drop_last());
    }
}

pub(crate) fn split_commas_exec(s: &Vec<char>) -> (r: Vec<Vec<char>>)
    ensures
        r@.map_values(|v: Vec<char>| v@) == split_commas(s@),
{
    let mut r: Vec<Vec<char>> = Vec::new();
    r.push(Vec::new());
    let n = s.len();
    let mut i: usize = 0;
    assert(s@.take(0) =~= Seq::<char>::empty());
    assert(r@.map_values(|v: Vec<char>| v@) =~= split_commas(s@.take(0)));
    while i < n
        invariant
            i <= n,
            n == s@.len(),
            r@.len() >= 1,
            r@.map_values(|v: Vec<char>| v@) == split_commas(s@.take(i as int)),
        decreases n - i,
    {
        let c = s[i];
        let ghost before = r@.map_values(|v: Vec<char>| v@);
        assert(s@.take(i + 1).drop_last() =~= s@.take(i as int));
        proof { lemma_split_nonempty(s@.take(i as int)); }
        if c == ',' {
            r.push(Vec::new());
            assert(r@.map_values(|v: Vec<char>| v@) =~= before.push(Seq::empty()));
        } else {
            let mut cur = r.pop().unwrap();
            let ghost rest = r@;
            cur.push(c);
            r.push(cur);
            assert(r@.map_values(|v: Vec<char>| v@) =~= before.update(before.len() - 1, before.last().push(c)));
        }
        i += 1;
    }
    assert(s@.take(n as int) =~= s@);
    r
}

/// The generic CSS families, always available.
pub open spec fn generic_families() -> Seq<Seq<char>> {
    seq!["sans-serif"@, "serif"@, "monospace"@, "cursive"@, "fantasy"@, "system-ui"@, "-apple-system"@]
}

pub open spec fn is_generic(name: Seq<char>) -> bool {
    exists|g: int| 0 <= g < generic_families().len() && eq_ignore_case(name, #[trigger] generic_families()[g])
}

/// Whether a family of `fams` equals the cleaned `family` up to ASCII case.
pub open spec fn family_available(fams: Seq<Seq<char>>, family: Seq<char>) -> bool {
    exists|i: int| 0 <= i < fams.len() && eq_ignore_case(#[trigger] fams[i], clean_name(family))
}

/// Whether some entry of the list is generic or available.
pub open spec fn any_available(fams: Seq<Seq<char>>, spec_text: Seq<char>) -> bool {
    exists|p: int| 0 <= p < split_commas(spec_text).len() && {
        let name = clean_name(#[trigger] split_commas(spec_text)[p]);
        is_generic(name) || family_available(fams, name)
    }
}

/// The first family of `fams` below position `q` equal to `name` up to
/// ASCII case.
pub open spec fn first_match(fams: Seq<Seq<char>>, name: Seq<char>, q: nat) -> Option<nat>
    decreases q,
{
    if q == 0 {
        None
    } else {
        match first_match(fams, name, (q - 1) as nat) {
            Some(i) => Some(i),
            None => if eq_ignore_case(fams[q - 1], name) { Some((q - 1) as nat) } else { None },
        }
    }
}

/// The family that the first `k` entries of a list resolve to: the first
/// entry that matches a family gives its first match.
pub open spec fn resolve_upto(fams: Seq<Seq<char>>, entries: Seq<Seq<char>>, k: nat) -> Option<Seq<char>>
    decreases k,
{
    if k == 0 {
        None
    } else {
        match resolve_upto(fams, entries, (k - 1) as nat) {
            Some(f) => Some(f),
            None => match first_match(fams, clean_name(entries[k - 1]), fams.len()) {
                Some(i) => Some(fams[i as int]),
                None => None,
            },
        }
    }
}

/// The installed font families, deduplicated and sorted.
pub struct FontCatalog {
    pub families: Vec<String>,
}

pub open spec fn family_texts(fams: Seq<String>) -> Seq<Seq<char>> {
    fams.map_values(|f: String| f@)
}

proof fn lemma_first_match_stable(fams: Seq<Seq<char>>, name: Seq<char>, q1: nat, q2: nat)
    requires
        q1 <= q2,
        first_match(fams, name, q1) is Some,
    ensures
        first_match(fams, name, q2) == first_match(fams, name, q1),
    decreases q2,
{
    if q2 > q1 {
        lemma_first_match_stable(fams, name, q1, (q2 - 1) as nat);
    }
}

proof fn lemma_first_match_none(fams: Seq<Seq<char>>, name: Seq<char>, q: nat)
    requires
        q <= fams.len(),
        forall|i: int| 0 <= i < q ==> !eq_ignore_case(#[trigger] fams[i], name),
    ensures
        first_match(fams, name, q) is None,
    decreases q,
{
    if q > 0 {
        lemma_first_match_none(fams, name, (q - 1) as nat);
    }
}

impl FontCatalog {
    /// Position of the first family equal to `name` up to ASCII case.
    fn find_family(&self, name: &Vec<char>) -> (r: Option<usize>)
        ensures
            match r {
                Some(i) => first_match(family_texts(self.families@), name@, self.families@.len()) == Some(i as nat)
                    && i < self.families@.len(),
                None => first_match(family_texts(self.families@), name@, self.families@.len()) is None,
            },
    {
        let ghost fams = family_texts(self.families@);
        let n = self.families.len();
        let mut i: usize = 0;
        while i < n
            invariant
                i <= n,
                n == self.families@.len(),
                fams == family_texts(self.families@),
                first_match(fams, name@, i as nat) is None,
            decreases n - i,
        {
            let f = chars_of(self.families[i].as_str());
            assert(fams[i as int] == self.families@[i as int]@);
            if eq_ignore_case_chars(&f, name) {
                proof {
                    assert(first_match(fams, name@, (i + 1) as nat) == Some(i as nat));
                    lemma_first_match_stable(fams, name@, (i + 1) as nat, n as nat);
                }
                return Some(i);
            }
            i += 1;
        }
        None
    }

    /// Whether a family is installed (the name is trimmed of white space and
    /// quotes; case is ignored for ASCII letters).
    pub fn is_family_available(&self, family: &str) -> (r: bool)
        ensures
            r == family_available(family_texts(self.families@), family@),
    {
        self.available_chars(&chars_of(family))
    }

    fn available_chars(&self, family: &Vec<char>) -> (r: bool)
        ensures
            r == family_available(family_texts(self.families@), family@),
    {
        let name = clean_chars(family);
        let found = self.find_family(&name);
        let ghost fams = family_texts(self.families@);
        proof {
            match found {
                Some(i) => {
                    assert(first_match(fams, name@, fams.len()) == Some(i as nat));
                    lemma_first_match_found(fams, name@, fams.len());
                },
                None => {
                    if family_available(fams, family@) {
                        let i = choose|i: int| 0 <= i < fams.len() && eq_ignore_case(#[trigger] fams[i], clean_name(family@));
                        lemma_first_match_exists(fams, name@, fams.len(), i);
                    }
                },
            }
        }
        found.is_some()
    }
}

proof fn lemma_first_match_found(fams: Seq<Seq<char>>, name: Seq<char>, q: nat)
    requires
        q <= fams.len(),
        first_match(fams, name, q) is Some,
    ensures
        first_match(fams, name, q)->0 < q,
        eq_ignore_case(fams[first_match(fams, name, q)->0 as int], name),
    decreases q,
{
    if q > 0 {
        if first_match(fams, name, (q - 1) as nat) is Some {
            lemma_first_match_found(fams, name, (q - 1) as nat);
        }
    }
}

proof fn lemma_first_match_exists(fams: Seq<Seq<char>>, name: Seq<char>, q: nat, i: int)
    requires
        q <= fams.len(),
        0 <= i < q,
        eq_ignore_case(fams[i], name),
    ensures
        first_match(fams, name, q) is Some,
    decreases q,
{
    if q > 0 && i < q - 1 {
        lemma_first_match_exists(fams, name, (q - 1) as nat, i);
    }
}

fn generic_exec(name: &Vec<char>) -> (r: bool)
    ensures
        r == is_generic(name@),
{
    let gs = vec!["sans-serif", "serif", "monospace", "cursive", "fantasy", "system-ui", "-apple-system"];
    assert(gs@.map_values(|g: &str| g@) =~= generic_families());
    let n = gs.len();
    let mut k: usize = 0;
    while k < n
        invariant
            k <= n,
            n == gs@.len(),
            gs@.map_values(|g: &str| g@) == generic_families(),
            forall|q: int| 0 <= q < k ==> !eq_ignore_case(name@, #[trigger] generic_families()[q]),
        decreases n - k,
    {
        assert(generic_families()[k as int] == gs@[k as int]@);
        if eq_ignore_case_chars(name, &chars_of(gs[k])) {
            return true;
        }
        k += 1;
    }
    false
}

/// Each of the seven generic CSS families (sans-serif, serif, monospace,
/// cursive, fantasy, system-ui, -apple-system), written in any ASCII case, is
/// a generic family.
pub proof fn law_generic_family_names(name: Seq<char>)
    requires
        eq_ignore_case(name, "sans-serif"@) || eq_ignore_case(name, "serif"@) || eq_ignore_case(name, "monospace"@)
            || eq_ignore_case(name, "cursive"@) || eq_ignore_case(name, "fantasy"@) || eq_ignore_case(
            name,
            "system-ui"@,
        ) || eq_ignore_case(name, "-apple-system"@),
    ensures
        is_generic(name),
{
    let gs = generic_families();
    if eq_ignore_case(name, "sans-serif"@) {
        assert(eq_ignore_case(name, gs[0]));
    } else if eq_ignore_case(name, "serif"@) {
        assert(eq_ignore_case(name, gs[1]));
    } else if eq_ignore_case(name, "monospace"@) {
        assert(eq_ignore_case(name, gs[2]));
    } else if eq_ignore_case(name, "cursive"@) {
        assert(eq_ignore_case(name, gs[3]));
    } else if eq_ignore_case(name, "fantasy"@) {
        assert(eq_ignore_case(name, gs[4]));
    } else if eq_ignore_case(name, "system-ui"@) {
        assert(eq_ignore_case(name, gs[5]));
    } else {
        assert(eq_ignore_case(name, gs[6]));
    }
}

/// A family list with an entry that names a generic CSS family (in any ASCII
/// case, around spaces and quotes) is available whatever fonts the catalog
/// holds.
pub proof fn law_generic_entry_available(fams: Seq<Seq<char>>, spec_text: Seq<char>, p: int)
    requires
        0 <= p < split_commas(spec_text).len(),
        ({
            let name = clean_name(split_commas(spec_text)[p]);
            eq_ignore_case(name, "sans-serif"@) || eq_ignore_case(name, "serif"@) || eq_ignore_case(
                name,
                "monospace"@,
            ) || eq_ignore_case(name, "cursive"@) || eq_ignore_case(name, "fantasy"@) || eq_ignore_case(
                name,
                "system-ui"@,
            ) || eq_ignore_case(name, "-apple-system"@)
        }),
    ensures
        any_available(fams, spec_text),
{
    law_generic_family_names(clean_name(split_commas(spec_text)[p]));
}

impl FontCatalog {
    /// Whether some entry of a comma-separated family list is a generic
    /// family (`sans-serif`, `serif`, …) or an installed one.
    pub fn is_any_family_available(&self, font_family_spec: &str) -> (r: bool)
        ensures
            r == any_available(family_texts(self.families@), font_family_spec@),
    {
        let pieces = split_commas_exec(&chars_of(font_family_spec));
        let ghost entries = split_commas(font_family_spec@);
        let ghost fams = family_texts(self.families@);
        let n = pieces.len();
        let mut p: usize = 0;
        while p < n
            invariant
                p <= n,
                n == pieces@.len(),
                pieces@.map_values(|v: Vec<char>| v@) == entries,
                entries == split_commas(font_family_spec@),
                fams == family_texts(self.families@),
                forall|q: int| 0 <= q < p ==> !({
                    let name = clean_name(#[trigger] entries[q]);
                    is_generic(name) || family_available(fams, name)
                }),
            decreases n - p,
        {
            assert(entries[p as int] == pieces@[p as int]@);
            let name = clean_chars(&pieces[p]);
            if generic_exec(&name) || self.available_chars(&name) {
                return true;
            }
            p += 1;
        }
        false
    }

    /// The installed family that a comma-separated list resolves to: the
    /// first entry with a match gives the first matching family (ASCII case
    /// ignored); `None` when no entry matches.
    pub fn resolve_family(&self, font_family_spec: &str) -> (r: Option<String>)
        ensures
            match r {
                Some(f) => resolve_upto(family_texts(self.families@), split_commas(font_family_spec@),
                    split_commas(font_family_spec@).len()) == Some(f@),
                None => resolve_upto(family_texts(self.families@), split_commas(font_family_spec@),
                    split_commas(font_family_spec@).len()) is None,
            },
    {
        let pieces = split_commas_exec(&chars_of(font_family_spec));
        let ghost entries = split_commas(font_family_spec@);
        let ghost fams = family_texts(self.families@);
        let n = pieces.len();
        let mut p: usize = 0;
        while p < n
            invariant
                p <= n,
                n == pieces@.len(),
                pieces@.map_values(|v: Vec<char>| v@) == entries,
                entries == split_commas(font_family_spec@),
                fams == family_texts(self.families@),
                resolve_upto(fams, entries, p as nat) is None,
            decreases n - p,
        {
            assert(entries[p as int] == pieces@[p as int]@);
            let name = clean_chars(&pieces[p]);
            if let Some(i) = self.find_family(&name) {
                let f = self.families[i].clone();
                proof {
                    assert(resolve_upto(fams, entries, (p + 1) as nat) == Some(f@));
                    lemma_resolve_stable(fams, entries, (p + 1) as nat, n as nat);
                }
                return Some(f);
            }
            p += 1;
        }
        None
    }
}

proof fn lemma_resolve_stable(fams: Seq<Seq<char>>, entries: Seq<Seq<char>>, k1: nat, k2: nat)
    requires
        k1 <= k2,
        resolve_upto(fams, entries, k1) is Some,
    ensures
        resolve_upto(fams, entries, k2) == resolve_upto(fams, entries, k1),
    decreases k2,
{
    if k2 > k1 {
        lemma_resolve_stable(fams, entries, k1, (k2 - 1) as nat);
    }
}

/// Name for what `str::to_lowercase` makes of a text (Unicode lower-case
/// mapping).
pub uninterp spec fn unicode_lowercase(s: Seq<char>) -> Seq<char>;

/// `str::to_lowercase`: the Unicode lower-case form of `s`, a function of
/// the text alone. Nothing more is claimed of it.
#[verifier::external_body]
fn to_lowercase(s: &str) -> (r: String)
    ensures
        r@ == unicode_lowercase(s@),
{
    s.to_lowercase()
}

/// Lexicographic order of texts by code point (the order of `String`).
pub open spec fn lex_lt(a: Seq<char>, b: Seq<char>) -> bool
    decreases a.len(),
{
    if a.len() == 0 {
        b.len() > 0
    } else if b.len() == 0 {
        false
    } else if a[0] != b[0] {
        a[0] < b[0]
    } else {
        lex_lt(a.drop_first(), b.drop_first())
    }
}

pub proof fn lemma_lex_asym(a: Seq<char>, b: Seq<char>)
    ensures
        !(lex_lt(a, b) && lex_lt(b, a)),
    decreases a.len(),
{
    if a.len() > 0 && b.len() > 0 && a[0] == b[0] {
        lemma_lex_asym(a.drop_first(), b.drop_first());
    }
}

pub proof fn lemma_lex_total(a: Seq<char>, b: Seq<char>)
    ensures
        lex_lt(a, b) || lex_lt(b, a) || a == b,
    decreases a.len(),
{
    if a.len() > 0 && b.len() > 0 && a[0] == b[0] {
        lemma_lex_total(a.drop_first(), b.drop_first());
        if a.drop_first() == b.drop_first() {
            assert(a =~= seq![a[0]] + a.drop_first());
            assert(b =~= seq![b[0]] + b.drop_first());
        }
    } else if a.len() > 0 && b.len() > 0 {
    } else if a.len() == 0 && b.len() == 0 {
        assert(a =~= b);
    }
}

pub proof fn lemma_lex_trans(a: Seq<char>, b: Seq<char>, c: Seq<char>)
    requires
        lex_lt(a, b),
        lex_lt(b, c),
    ensures
        lex_lt(a, c),
    decreases a.len(),
{
    if a.len() > 0 && b.len() > 0 && c.len() > 0 && a[0] == b[0] && b[0] == c[0] {
        lemma_lex_trans(a.drop_first(), b.drop_first(), c.drop_first());
    }
}

/// `a` comes no later than `b`.
pub open spec fn lex_le(a: Seq<char>, b: Seq<char>) -> bool {
    !lex_lt(b, a)
}

proof fn lemma_lex_le_trans(a: Seq<char>, b: Seq<char>, c: Seq<char>)
    requires
        lex_le(a, b),
        lex_le(b, c),
    ensures
        lex_le(a, c),
{
    lemma_lex_total(a, b);
    lemma_lex_total(b, c);
    if lex_lt(a, b) && lex_lt(b, c) {
        lemma_lex_trans(a, b, c);
        lemma_lex_asym(a, c);
    }
}

/// `perm` lists the old positions in their new order: a permutation that
/// orders `keys` and keeps entries with equal keys in their old order.
pub open spec fn is_stable_text_sort(perm: Seq<int>, keys: Seq<Seq<char>>) -> bool {
    &&& perm.len() == keys.len()
    &&& forall|k: int| 0 <= k < perm.len() ==> 0 <= #[trigger] perm[k] < keys.len()
    &&& forall|a: int, b: int| 0 <= a < b < perm.len() ==> perm[a] != perm[b]
    &&& forall|a: int, b: int| 0 <= a < b < perm.len() ==> lex_le(keys[perm[a]], keys[perm[b]])
    &&& forall|a: int, b: int| 0 <= a < b < perm.len() && keys[perm[a]] == keys[perm[b]] ==> perm[a] < perm[b]
}

fn lex_lt_exec(a: &Vec<char>, b: &Vec<char>) -> (r: bool)
    ensures
        r == lex_lt(a@, b@),
{
    let n = a.len();
    let m = b.len();
    let mut i: usize = 0;
    assert(a@.skip(0) =~= a@);
    assert(b@.skip(0) =~= b@);
    while i < n && i < m && a[i] == b[i]
        invariant
            i <= n,
            i <= m,
            n == a@.len(),
            m == b@.len(),
            lex_lt(a@, b@) == lex_lt(a@.skip(i as int), b@.skip(i as int)),
        decreases n - i,
    {
        assert(a@.skip(i as int).drop_first() =~= a@.skip(i + 1));
        assert(b@.skip(i as int).drop_first() =~= b@.skip(i + 1));
        i += 1;
    }
    let ghost x = a@.skip(i as int);
    let ghost y = b@.skip(i as int);
    assert(x.len() == n - i && y.len() == m - i);
    if i == n {
        assert(x.len() == 0);
        i < m
    } else if i == m {
        assert(y.len() == 0 && x.len() > 0);
        false
    } else {
        let ca = a[i];
        let cb = b[i];
        assert(x[0] == ca && y[0] == cb);
        assert(ca != cb);
        ca < cb
    }
}

/// Stable insertion sort of `items` by the texts `keys`; returns the
/// permutation.
fn sort_by_text<T>(items: &mut Vec<T>, keys: &mut Vec<Vec<char>>) -> (perm: Ghost<Seq<int>>)
    requires
        old(items)@.len() == old(keys)@.len(),
    ensures
        is_stable_text_sort(perm@, old(keys)@.map_values(|k: Vec<char>| k@)),
        final(items)@.len() == old(items)@.len(),
        forall|k: int| 0 <= k < final(items)@.len() ==> final(items)@[k] == old(items)@[#[trigger] perm@[k]],
{
    let ghost items0 = items@;
    let ghost keys0 = keys@.map_values(|k: Vec<char>| k@);
    let n = items.len();
    let ghost mut perm: Seq<int> = Seq::new(n as nat, |k: int| k);
    let mut i: usize = 0;
    while i < n
        invariant
            n == items@.len(),
            n == keys@.len(),
            n == items0.len(),
            n == keys0.len(),
            i <= n,
            perm.len() == n,
            forall|k: int| 0 <= k < n ==> 0 <= #[trigger] perm[k] < n,
            forall|a: int, b: int| 0 <= a < b < n ==> perm[a] != perm[b],
            forall|k: int| 0 <= k < n ==> items@[k] == items0[#[trigger] perm[k]],
            forall|k: int| 0 <= k < n ==> keys@[k]@ == keys0[#[trigger] perm[k]],
            forall|k: int| i <= k < n ==> #[trigger] perm[k] == k,
            forall|k: int| 0 <= k < i ==> #[trigger] perm[k] < i,
            forall|a: int, b: int| 0 <= a < b < i ==> lex_le(keys@[a]@, keys@[b]@),
            forall|a: int, b: int| 0 <= a < b < i && keys@[a]@ == keys@[b]@ ==> perm[a] < perm[b],
        decreases n - i,
    {
        let mut j = i;
        while j > 0 && lex_lt_exec(&keys[j], &keys[j - 1])
            invariant
                n == items@.len(),
                n == keys@.len(),
                n == items0.len(),
                n == keys0.len(),
                i < n,
                j <= i,
                perm.len() == n,
                forall|k: int| 0 <= k < n ==> 0 <= #[trigger] perm[k] < n,
                forall|a: int, b: int| 0 <= a < b < n ==> perm[a] != perm[b],
                forall|k: int| 0 <= k < n ==> items@[k] == items0[#[trigger] perm[k]],
                forall|k: int| 0 <= k < n ==> keys@[k]@ == keys0[#[trigger] perm[k]],
                forall|k: int| i < k < n ==> #[trigger] perm[k] == k,
                perm[j as int] == i,
                forall|k: int| 0 <= k <= i && k != j ==> #[trigger] perm[k] < i,
                forall|a: int, b: int| 0 <= a < b <= i && a != j && b != j ==> lex_le(keys@[a]@, keys@[b]@),
                forall|a: int, b: int| 0 <= a < b <= i && a != j && b != j && keys@[a]@ == keys@[b]@ ==> perm[a] < perm[b],
                forall|b: int| j < b <= i ==> lex_lt(keys@[j as int]@, keys@[b]@),
            decreases j,
        {
            let ghost p0 = perm;
            swap_adj(items, j - 1);
            swap_adj(keys, j - 1);
            proof {
                perm = p0.update(j - 1, p0[j as int]).update(j as int, p0[j - 1]);
            }
            j -= 1;
        }
        proof {
            let ghost kj = keys@[j as int]@;
            assert forall|a: int, b: int| 0 <= a < b <= i implies lex_le(keys@[a]@, keys@[b]@) by {
                if b == j {
                    if a < j - 1 {
                        lemma_lex_le_trans(keys@[a]@, keys@[j - 1]@, kj);
                    }
                } else if a == j {
                    lemma_lex_asym(kj, keys@[b]@);
                }
            }
            assert forall|a: int, b: int| 0 <= a < b <= i && keys@[a]@ == keys@[b]@ implies perm[a] < perm[b] by {
                if a == j {
                    lemma_lex_asym(kj, keys@[b]@);
                    assert(lex_lt(kj, keys@[b]@));
                }
            }
        }
        i += 1;
    }
    proof {
        let ks = old(keys)@.map_values(|k: Vec<char>| k@);
        assert(ks == keys0);
        assert forall|a: int, b: int| 0 <= a < b < perm.len() implies lex_le(ks[perm[a]], ks[perm[b]]) by {
            assert(keys@[a]@ == keys0[perm[a]]);
            assert(keys@[b]@ == keys0[perm[b]]);
        }
        assert forall|a: int, b: int| 0 <= a < b < perm.len() && ks[perm[a]] == ks[perm[b]] implies perm[a] < perm[b] by {
            assert(keys@[a]@ == keys0[perm[a]]);
            assert(keys@[b]@ == keys0[perm[b]]);
        }
    }
    Ghost(perm)
}

/// The distinct non-empty names among the first `k`, in first-seen order.
pub open spec fn dedup_names(names: Seq<Seq<char>>, k: nat) -> Seq<Seq<char>>
    decreases k,
{
    if k == 0 {
        Seq::empty()
    } else {
        let r = dedup_names(names, (k - 1) as nat);
        let x = names[k - 1];
        if x.len() > 0 && !r.contains(x) { r.push(x) } else { r }
    }
}

/// The lower-case forms of the names.
pub open spec fn lower_keys(d: Seq<Seq<char>>) -> Seq<Seq<char>> {
    d.map_values(|x: Seq<char>| unicode_lowercase(x))
}

/// `families` are the distinct non-empty `names` (first-seen order), stably
/// sorted by their lower-case form.
pub open spec fn catalog_of(names: Seq<Seq<char>>, families: Seq<Seq<char>>) -> bool {
    let d = dedup_names(names, names.len());
    exists|perm: Seq<int>| #[trigger] is_stable_text_sort(perm, lower_keys(d))
        && families.len() == d.len()
        && forall|k: int| 0 <= k < families.len() ==> families[k] == d[#[trigger] perm[k]]
}

impl FontCatalog {
    /// The catalog of the family names found by a font scan: empty names and
    /// repeats are dropped, and the rest sorted by lower-case form.
    pub fn from_names(names: Vec<String>) -> (c: FontCatalog)
        ensures
            catalog_of(family_texts(names@), family_texts(c.families@)),
    {
        let ghost ns = family_texts(names@);
        let mut families: Vec<String> = Vec::new();
        let n = names.len();
        let mut i: usize = 0;
        while i < n
            invariant
                i <= n,
                n == names@.len(),
                ns == family_texts(names@),
                family_texts(families@) == dedup_names(ns, i as nat),
            decreases n - i,
        {
            let name = &names[i];
            assert(ns[i as int] == name@);
            let mut seen = false;
            let mut j: usize = 0;
            while j < families.len()
                invariant
                    j <= families@.len(),
                    seen == exists|q: int| 0 <= q < j && #[trigger] families@[q]@ == name@,
                decreases families@.len() - j,
            {
                if families[j] == *name {
                    seen = true;
                }
                proof {
                    if families@[j as int]@ == name@ {
                        assert(families@[j as int]@ == name@);
                    }
                }
                j += 1;
            }
            let ghost before = family_texts(families@);
            proof {
                if before.contains(name@) {
                    let q = choose|q: int| 0 <= q < before.len() && before[q] == name@;
                    assert(families@[q]@ == name@);
                }
                if seen {
                    let q = choose|q: int| 0 <= q < j && #[trigger] families@[q]@ == name@;
                    assert(before[q] == name@);
                }
            }
            if !seen && chars_of(name.as_str()).len() > 0 {
                families.push(name.clone());
                assert(family_texts(families@) =~= before.push(name@));
            }
            i += 1;
        }
        let ghost d = family_texts(families@);
        let mut keys: Vec<Vec<char>> = Vec::new();
        let m = families.len();
        let mut k: usize = 0;
        while k < m
            invariant
                k <= m,
                m == families@.len(),
                keys@.len() == k,
                forall|q: int| 0 <= q < k ==> (#[trigger] keys@[q])@ == unicode_lowercase(families@[q]@),
            decreases m - k,
        {
            let low = to_lowercase(families[k].as_str());
            keys.push(chars_of(low.as_str()));
            k += 1;
        }
        let ghost fam0 = families@;
        let ghost keys0 = keys@.map_values(|v: Vec<char>| v@);
        assert(keys0 =~= lower_keys(d));
        let perm = sort_by_text(&mut families, &mut keys);
        proof {
            assert forall|q: int| 0 <= q < families@.len() implies family_texts(families@)[q] == d[#[trigger] perm@[q]] by {
                assert(families@[q] == fam0[perm@[q]]);
            }
            assert(is_stable_text_sort(perm@, lower_keys(d)));
            assert(d == dedup_names(ns, ns.len()));
            assert(family_texts(families@).len() == d.len());
            assert(catalog_of(ns, family_texts(families@)));
        }
        FontCatalog { families }
    }

    /// The installed family names, sorted.
    pub fn list_families(&self) -> (r: &[String])
        ensures
            r@ == self.families@,
    {
        self.families.as_slice()
    }
}

/// The generic families that face queries skip (they resolve through the
/// sans-serif fallback).
pub open spec fn query_generics() -> Seq<Seq<char>> {
    seq!["sans-serif"@, "serif"@, "monospace"@, "cursive"@, "fantasy"@, "system-ui"@]
}

pub open spec fn is_query_generic(name: Seq<char>) -> bool {
    exists|g: int| 0 <= g < query_generics().len() && eq_ignore_case(name, #[trigger] query_generics()[g])
}

fn query_generic_exec(name: &Vec<char>) -> (r: bool)
    ensures
        r == is_query_generic(name@),
{
    let gs = vec!["sans-serif", "serif", "monospace", "cursive", "fantasy", "system-ui"];
    assert(gs@.map_values(|g: &str| g@) =~= query_generics());
    let n = gs.len();
    let mut k: usize = 0;
    while k < n
        invariant
            k <= n,
            n == gs@.len(),
            gs@.map_values(|g: &str| g@) == query_generics(),
            forall|q: int| 0 <= q < k ==> !eq_ignore_case(name@, #[trigger] query_generics()[q]),
        decreases n - k,
    {
        assert(query_generics()[k as int] == gs@[k as int]@);
        if eq_ignore_case_chars(name, &chars_of(gs[k])) {
            return true;
        }
        k += 1;
    }
    false
}

/// The concrete family names of the first `k` list entries, in order:
/// cleaned, and neither empty nor generic.
pub open spec fn candidates_upto(entries: Seq<Seq<char>>, k: nat) -> Seq<Seq<char>>
    decreases k,
{
    if k == 0 {
        Seq::empty()
    } else {
        let r = candidates_upto(entries, (k - 1) as nat);
        let name = clean_name(entries[k - 1]);
        if name.len() > 0 && !is_query_generic(name) { r.push(name) } else { r }
    }
}

pub(crate) fn string_of(cs: &Vec<char>) -> (s: String)
    ensures
        s@ == cs@,
{
    let mut s = String::new();
    let n = cs.len();
    let mut i: usize = 0;
    while i < n
        invariant
            i <= n,
            n == cs@.len(),
            s@ == cs@.take(i as int),
        decreases n - i,
    {
        crate::text::push_char(&mut s, cs[i]);
        assert(cs@.take(i + 1) =~= cs@.take(i as int).push(cs@[i as int]));
        i += 1;
    }
    assert(cs@.take(n as int) =~= cs@);
    s
}

/// The concrete family names of a comma-separated list, in the order a
/// face query tries them (generic names and empty entries are skipped).
pub fn face_candidates(font_family_spec: &str) -> (r: Vec<String>)
    ensures
        r@.map_values(|s: String| s@) == candidates_upto(split_commas(font_family_spec@), split_commas(font_family_spec@).len()),
{
    let pieces = split_commas_exec(&chars_of(font_family_spec));
    let ghost entries = split_commas(font_family_spec@);
    let n = pieces.len();
    let mut r: Vec<String> = Vec::new();
    let mut p: usize = 0;
    while p < n
        invariant
            p <= n,
            n == pieces@.len(),
            pieces@.map_values(|v: Vec<char>| v@) == entries,
            r@.map_values(|s: String| s@) == candidates_upto(entries, p as nat),
        decreases n - p,
    {
        assert(entries[p as int] == pieces@[p as int]@);
        let name = clean_chars(&pieces[p]);
        let ghost before = r@.map_values(|s: String| s@);
        if name.len() > 0 && !query_generic_exec(&name) {
            let s = string_of(&name);
            r.push(s);
            assert(r@.map_values(|s: String| s@) =~= before.push(name@));
        }
        p += 1;
    }
    r
}

/// How to find out whether a slanted style must be synthesized.
pub enum StyleProbe {
    /// Upright text never needs it.
    Upright,
    /// Query this installed family for a slanted face.
    Family(String),
    /// Query the sans-serif fallback for a slanted face.
    SansFallback,
    /// No entry resolves: always synthesize.
    Synthesize,
}

/// The probe decided by the first `k` list entries: the first installed
/// concrete family, else the sans fallback if a generic name was seen,
/// else synthesis.
pub open spec fn probe_upto(fams: Seq<Seq<char>>, entries: Seq<Seq<char>>, k: nat) -> (Option<Seq<char>>, bool)
    decreases k,
{
    if k == 0 {
        (None, false)
    } else {
        let r = probe_upto(fams, entries, (k - 1) as nat);
        let name = clean_name(entries[k - 1]);
        if r.0 is Some || name.len() == 0 {
            r
        } else if is_query_generic(name) {
            (r.0, true)
        } else if family_available(fams, name) {
            (Some(name), r.1)
        } else {
            r
        }
    }
}

proof fn lemma_probe_stable(fams: Seq<Seq<char>>, entries: Seq<Seq<char>>, k1: nat, k2: nat)
    requires
        k1 <= k2,
        probe_upto(fams, entries, k1).0 is Some,
    ensures
        probe_upto(fams, entries, k2) == probe_upto(fams, entries, k1),
    decreases k2,
{
    if k2 > k1 {
        lemma_probe_stable(fams, entries, k1, (k2 - 1) as nat);
    }
}

impl FontCatalog {
    /// What to query to decide whether `style` must be synthesized for a
    /// family list.
    pub fn synthetic_style_probe(&self, family: &str, style: FontStyle) -> (r: StyleProbe)
        ensures
            style == FontStyle::Normal ==> r is Upright,
            style != FontStyle::Normal ==> ({
                let entries = split_commas(family@);
                let pr = probe_upto(family_texts(self.families@), entries, entries.len());
                match r {
                    StyleProbe::Family(n) => pr.0 == Some(n@),
                    StyleProbe::SansFallback => pr.0 is None && pr.1,
                    StyleProbe::Synthesize => pr.0 is None && !pr.1,
                    StyleProbe::Upright => false,
                }
            }),
    {
        if let FontStyle::Normal = style {
            return StyleProbe::Upright;
        }
        let pieces = split_commas_exec(&chars_of(family));
        let ghost entries = split_commas(family@);
        let ghost fams = family_texts(self.families@);
        let n = pieces.len();
        let mut saw_generic = false;
        let mut p: usize = 0;
        while p < n
            invariant
                p <= n,
                n == pieces@.len(),
                pieces@.map_values(|v: Vec<char>| v@) == entries,
                entries == split_commas(family@),
                fams == family_texts(self.families@),
                probe_upto(fams, entries, p as nat) == (None::<Seq<char>>, saw_generic),
                style != FontStyle::Normal,
            decreases n - p,
        {
            assert(entries[p as int] == pieces@[p as int]@);
            let name = clean_chars(&pieces[p]);
            if name.len() > 0 {
                if query_generic_exec(&name) {
                    saw_generic = true;
                } else if self.available_chars(&name) {
                    let s = string_of(&name);
                    proof {
                        assert(probe_upto(fams, entries, (p + 1) as nat).0 == Some(name@));
                        lemma_probe_stable(fams, entries, (p + 1) as nat, n as nat);
                    }
                    return StyleProbe::Family(s);
                }
            }
            p += 1;
        }
        if saw_generic {
            StyleProbe::SansFallback
        } else {
            StyleProbe::Synthesize
        }
    }
}

} // verus!

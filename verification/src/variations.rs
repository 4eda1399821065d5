//! Variable-font axis settings of a text style: a list of axis tags with
//! coordinates, looked up by tag without regard to ASCII case, and the
//! CSS `font-variation-settings` text form. Coordinates are carried as
//! `V`; in the CSS form they are the number as written.
use vstd::prelude::*;
use crate::text::{chars_of, push_char, push_str, is_white, trim_class, trim_class_chars, CharClass};
use crate::fonts::{eq_ignore_case, eq_ignore_case_chars, split_commas, split_commas_exec, string_of};

verus! {

/// One axis coordinate: a four-letter tag such as `wght`, and its value.
pub struct VariationSetting<V> {
    pub axis: String,
    pub value: V,
}

impl<V> VariationSetting<V> {
    /// A setting of `axis` to `value`.
    pub fn new(axis: &str, value: V) -> (r: Self)
        ensures
            r.axis@ == axis@,
            r.value == value,
    {
        VariationSetting { axis: axis.to_string(), value }
    }
}

/// The first setting below position `n` whose tag equals `axis` up to
/// ASCII case.
pub open spec fn axis_position<V>(vs: Seq<VariationSetting<V>>, axis: Seq<char>, n: nat) -> Option<nat>
    decreases n,
{
    if n == 0 {
        None
    } else {
        match axis_position(vs, axis, (n - 1) as nat) {
            Some(p) => Some(p),
            None => if eq_ignore_case(vs[n - 1].axis@, axis) { Some((n - 1) as nat) } else { None },
        }
    }
}

proof fn lemma_axis_position_stable<V>(vs: Seq<VariationSetting<V>>, axis: Seq<char>, n1: nat, n2: nat)
    requires
        n1 <= n2,
        axis_position(vs, axis, n1) is Some,
    ensures
        axis_position(vs, axis, n2) == axis_position(vs, axis, n1),
    decreases n2,
{
    if n2 > n1 {
        lemma_axis_position_stable(vs, axis, n1, (n2 - 1) as nat);
    }
}

proof fn lemma_axis_position_bound<V>(vs: Seq<VariationSetting<V>>, axis: Seq<char>, n: nat)
    ensures
        axis_position(vs, axis, n) matches Some(p) ==> p < n,
    decreases n,
{
    if n > 0 {
        lemma_axis_position_bound(vs, axis, (n - 1) as nat);
    }
}

fn find_axis<V>(vs: &Vec<VariationSetting<V>>, axis: &str) -> (r: Option<usize>)
    ensures
        r is None <==> axis_position(vs@, axis@, vs@.len()) is None,
        r matches Some(q) ==> axis_position(vs@, axis@, vs@.len()) == Some(q as nat) && q < vs@.len(),
{
    proof { lemma_axis_position_bound(vs@, axis@, vs@.len()); }
    let key = chars_of(axis);
    let n = vs.len();
    let mut i: usize = 0;
    while i < n
        invariant
            i <= n,
            n == vs@.len(),
            key@ == axis@,
            axis_position(vs@, axis@, i as nat) is None,
        decreases n - i,
    {
        let tag = chars_of(vs[i].axis.as_str());
        if eq_ignore_case_chars(&tag, &key) {
            proof {
                lemma_axis_position_stable(vs@, axis@, (i + 1) as nat, n as nat);
            }
            return Some(i);
        }
        i += 1;
    }
    None
}

/// The value of the first setting of `axis` (ASCII case ignored).
pub fn variation<'a, V>(vs: &'a Vec<VariationSetting<V>>, axis: &str) -> (r: Option<&'a V>)
    ensures
        match axis_position(vs@, axis@, vs@.len()) {
            Some(p) => r == Some(&vs@[p as int].value),
            None => r is None,
        },
{
    match find_axis(vs, axis) {
        Some(p) => Some(&vs[p].value),
        None => None,
    }
}

/// Set `axis` to `value`: the first setting of that axis (ASCII case
/// ignored) takes the value and keeps its tag; otherwise a setting is
/// appended.
pub fn set_variation<V>(vs: &mut Vec<VariationSetting<V>>, axis: &str, value: V)
    ensures
        match axis_position(old(vs)@, axis@, old(vs)@.len()) {
            Some(p) => final(vs)@ == old(vs)@.update(p as int,
                VariationSetting { axis: old(vs)@[p as int].axis, value }),
            None => final(vs)@.len() == old(vs)@.len() + 1
                && final(vs)@.take(old(vs)@.len() as int) == old(vs)@
                && final(vs)@.last().axis@ == axis@ && final(vs)@.last().value == value,
        },
{
    match find_axis(vs, axis) {
        Some(p) => {
            let mut entry = vs.remove(p);
            entry.value = value;
            vs.insert(p, entry);
            assert(vs@ =~= old(vs)@.update(p as int, VariationSetting { axis: old(vs)@[p as int].axis, value }));
        },
        None => {
            vs.push(VariationSetting::new(axis, value));
            assert(vs@.take(old(vs)@.len() as int) =~= old(vs)@);
        },
    }
}

/// The settings whose tag is not `axis` (ASCII case ignored), in order.
pub open spec fn without_axis<V>(vs: Seq<VariationSetting<V>>, axis: Seq<char>) -> Seq<VariationSetting<V>>
    decreases vs.len(),
{
    if vs.len() == 0 {
        vs
    } else {
        let r = without_axis(vs.drop_last(), axis);
        if eq_ignore_case(vs.last().axis@, axis) { r } else { r.push(vs.last()) }
    }
}

/// Remove every setting of `axis` (ASCII case ignored).
pub fn clear_variation<V>(vs: &mut Vec<VariationSetting<V>>, axis: &str)
    ensures
        final(vs)@ == without_axis(old(vs)@, axis@),
{
    let key = chars_of(axis);
    let mut rest: Vec<VariationSetting<V>> = Vec::new();
    std::mem::swap(vs, &mut rest);
    let ghost orig = rest@;
    let n = rest.len();
    let mut k: usize = 0;
    assert(orig.take(0) =~= Seq::<VariationSetting<V>>::empty());
    assert(orig.skip(0) =~= orig);
    while k < n
        invariant
            k <= n,
            n == orig.len(),
            key@ == axis@,
            rest@ == orig.skip(k as int),
            vs@ == without_axis(orig.take(k as int), axis@),
        decreases n - k,
    {
        let s = rest.remove(0);
        proof {
            assert(orig.take(k + 1).drop_last() =~= orig.take(k as int));
            assert(orig.skip(k as int)[0] == orig[k as int]);
            assert(orig.skip(k as int).remove(0) =~= orig.skip(k + 1));
        }
        let tag = chars_of(s.axis.as_str());
        if !eq_ignore_case_chars(&tag, &key) {
            vs.push(s);
        }
        k += 1;
    }
    assert(orig.take(n as int) =~= orig);
}

/// One setting in CSS form: the tag in double quotes, a space, the value.
pub open spec fn css_entry(s: VariationSetting<String>) -> Seq<char> {
    seq!['"'] + s.axis@ + seq!['"', ' '] + s.value@
}

/// The CSS `font-variation-settings` text: the entries joined by `", "`.
pub open spec fn css_of(vs: Seq<VariationSetting<String>>) -> Seq<char>
    decreases vs.len(),
{
    if vs.len() == 0 {
        Seq::empty()
    } else if vs.len() == 1 {
        css_entry(vs[0])
    } else {
        css_of(vs.drop_last()) + seq![',', ' '] + css_entry(vs.last())
    }
}

/// The CSS `font-variation-settings` text of settings whose values are
/// already written out as numbers.
pub fn variation_settings_css(vs: &Vec<VariationSetting<String>>) -> (r: String)
    ensures
        r@ == css_of(vs@),
{
    let mut out = String::new();
    let n = vs.len();
    let mut i: usize = 0;
    assert(vs@.take(0) =~= Seq::<VariationSetting<String>>::empty());
    while i < n
        invariant
            i <= n,
            n == vs@.len(),
            out@ == css_of(vs@.take(i as int)),
        decreases n - i,
    {
        let ghost before = out@;
        if i > 0 {
            push_char(&mut out, ',');
            push_char(&mut out, ' ');
        }
        push_char(&mut out, '"');
        push_str(&mut out, vs[i].axis.as_str());
        push_char(&mut out, '"');
        push_char(&mut out, ' ');
        push_str(&mut out, vs[i].value.as_str());
        proof {
            assert(vs@.take(i + 1).drop_last() =~= vs@.take(i as int));
            assert(vs@.take(i + 1).last() == vs@[i as int]);
            if i == 0 {
                assert(vs@.take(1)[0] == vs@[0]);
                assert(out@ =~= css_entry(vs@[0]));
            } else {
                assert(out@ =~= before + seq![',', ' '] + css_entry(vs@[i as int]));
            }
        }
        i += 1;
    }
    assert(vs@.take(n as int) =~= vs@);
    out
}

/// The white-space separated words of `s` (`str::split_whitespace`).
pub open spec fn words(s: Seq<char>) -> Seq<Seq<char>>
    decreases s.len(),
{
    if s.len() == 0 {
        Seq::empty()
    } else {
        let w = words(s.drop_last());
        let c = s.last();
        if is_white(c) {
            w
        } else if s.len() >= 2 && !is_white(s[s.len() - 2]) {
            w.update(w.len() - 1, w.last().push(c))
        } else {
            w.push(seq![c])
        }
    }
}

proof fn lemma_words_open(s: Seq<char>)
    requires
        s.len() > 0,
        !is_white(s.last()),
    ensures
        words(s).len() >= 1,
    decreases s.len(),
{
    if s.len() >= 2 && !is_white(s[s.len() - 2]) {
        lemma_words_open(s.drop_last());
    }
}

fn split_words(s: &Vec<char>) -> (r: Vec<Vec<char>>)
    ensures
        r@.map_values(|v: Vec<char>| v@) == words(s@),
{
    let mut done: Vec<Vec<char>> = Vec::new();
    let mut cur: Vec<char> = Vec::new();
    let mut in_word = false;
    let n = s.len();
    let mut i: usize = 0;
    assert(s@.take(0) =~= Seq::<char>::empty());
    while i < n
        invariant
            i <= n,
            n == s@.len(),
            in_word == (i > 0 && !is_white(s@[i - 1])),
            !in_word ==> cur@.len() == 0,
            done@.map_values(|v: Vec<char>| v@) + (if in_word { seq![cur@] } else { Seq::empty() })
                == words(s@.take(i as int)),
        decreases n - i,
    {
        let c = s[i];
        let ghost before = done@.map_values(|v: Vec<char>| v@) + (if in_word { seq![cur@] } else { Seq::empty() });
        proof {
            assert(s@.take(i + 1).drop_last() =~= s@.take(i as int));
            assert(s@.take(i + 1).last() == c);
            if i > 0 {
                assert(s@.take(i + 1)[i - 1] == s@[i - 1]);
            }
        }
        let white = crate::text::is_white_char(c);
        if white {
            if in_word {
                let w = cur;
                cur = Vec::new();
                done.push(w);
                in_word = false;
            }
            assert(done@.map_values(|v: Vec<char>| v@) + (if in_word { seq![cur@] } else { Seq::empty() }) =~= before);
        } else {
            if in_word {
                cur.push(c);
                proof {
                    lemma_words_open(s@.take(i as int));
                }
                assert(done@.map_values(|v: Vec<char>| v@) + seq![cur@] =~= before.update(before.len() - 1, before.last().push(c)));
            } else {
                cur.push(c);
                in_word = true;
                assert(cur@ =~= seq![c]);
                assert(done@.map_values(|v: Vec<char>| v@) + seq![cur@] =~= before.push(seq![c]));
            }
        }
        i += 1;
    }
    assert(s@.take(n as int) =~= s@);
    if in_word {
        done.push(cur);
    }
    assert(done@.map_values(|v: Vec<char>| v@) =~= words(s@));
    done
}

/// How many bytes `c` takes in UTF-8.
pub open spec fn utf8_width(c: char) -> nat {
    let v = c as u32;
    if v < 0x80 { 1 } else if v < 0x800 { 2 } else if v < 0x10000 { 3 } else { 4 }
}

/// How many bytes `s` takes in UTF-8 (`str::len`).
pub open spec fn utf8_len(s: Seq<char>) -> nat
    decreases s.len(),
{
    if s.len() == 0 { 0 } else { utf8_len(s.drop_last()) + utf8_width(s.last()) }
}

proof fn lemma_utf8_len_at_least(s: Seq<char>)
    ensures
        utf8_len(s) >= s.len(),
    decreases s.len(),
{
    if s.len() > 0 {
        lemma_utf8_len_at_least(s.drop_last());
    }
}

fn utf8_len_is_four(s: &Vec<char>) -> (r: bool)
    ensures
        r == (utf8_len(s@) == 4),
{
    proof { lemma_utf8_len_at_least(s@); }
    if s.len() > 4 {
        return false;
    }
    let n = s.len();
    let mut total: usize = 0;
    let mut i: usize = 0;
    assert(s@.take(0) =~= Seq::<char>::empty());
    while i < n
        invariant
            i <= n <= 4,
            n == s@.len(),
            total == utf8_len(s@.take(i as int)),
            total <= 4 * i,
        decreases n - i,
    {
        let v = s[i] as u32;
        let w: usize = if v < 0x80 { 1 } else if v < 0x800 { 2 } else if v < 0x10000 { 3 } else { 4 };
        assert(s@.take(i + 1).drop_last() =~= s@.take(i as int));
        total = total + w;
        i += 1;
    }
    assert(s@.take(n as int) =~= s@);
    total == 4
}

/// What one comma-separated part of the CSS text yields: the first word
/// with quotation marks trimmed as the tag, and the second word as the
/// value, when there are two words and the tag is four bytes long.
pub open spec fn css_part(part: Seq<char>) -> Option<(Seq<char>, Seq<char>)> {
    let ws = words(part);
    if ws.len() < 2 {
        None
    } else {
        let tag = trim_class(ws[0], CharClass::Quote);
        if utf8_len(tag) != 4 { None } else { Some((tag, ws[1])) }
    }
}

/// The settings that parts of the CSS text yield, in order.
pub open spec fn css_settings(parts: Seq<Seq<char>>) -> Seq<(Seq<char>, Seq<char>)>
    decreases parts.len(),
{
    if parts.len() == 0 {
        Seq::empty()
    } else {
        let r = css_settings(parts.drop_last());
        match css_part(parts.last()) {
            Some(e) => r.push(e),
            None => r,
        }
    }
}

/// A setting as plain text: tag and value.
pub open spec fn setting_text(s: VariationSetting<String>) -> (Seq<char>, Seq<char>) {
    (s.axis@, s.value@)
}

/// Parse `font-variation-settings` content (`"wght" 700, "wdth" 100`):
/// the settings with their values as written, in order; parts without two
/// words or whose tag is not four bytes long are skipped.
pub fn parse_variation_settings_css(s: &str) -> (r: Vec<VariationSetting<String>>)
    ensures
        r@.map_values(|v: VariationSetting<String>| setting_text(v)) == css_settings(split_commas(s@)),
{
    let cs = chars_of(s);
    let parts = split_commas_exec(&cs);
    let ghost ps = parts@.map_values(|v: Vec<char>| v@);
    let mut out: Vec<VariationSetting<String>> = Vec::new();
    let n = parts.len();
    let mut k: usize = 0;
    assert(ps.take(0) =~= Seq::<Seq<char>>::empty());
    while k < n
        invariant
            k <= n,
            n == parts@.len(),
            ps == parts@.map_values(|v: Vec<char>| v@),
            out@.map_values(|v: VariationSetting<String>| setting_text(v)) == css_settings(ps.take(k as int)),
        decreases n - k,
    {
        let ghost before = out@.map_values(|v: VariationSetting<String>| setting_text(v));
        proof {
            assert(ps.take(k + 1).drop_last() =~= ps.take(k as int));
            assert(ps.take(k + 1).last() == parts@[k as int]@);
        }
        let ws = split_words(&parts[k]);
        if ws.len() >= 2 {
            let tag = trim_class_chars(&ws[0], &CharClass::Quote);
            proof {
                assert(ws@[0]@ == words(parts@[k as int]@)[0]);
                assert(ws@[1]@ == words(parts@[k as int]@)[1]);
            }
            if utf8_len_is_four(&tag) {
                let axis = string_of(&tag);
                let value = string_of(&ws[1]);
                out.push(VariationSetting { axis, value });
                assert(out@.map_values(|v: VariationSetting<String>| setting_text(v)) =~= before.push((tag@, ws@[1]@)));
            }
        }
        k += 1;
    }
    assert(ps.take(n as int) =~= ps);
    out
}

/// A word of the CSS text: not empty, and without white space or commas.
pub open spec fn plain_token(s: Seq<char>) -> bool {
    s.len() > 0 && forall|i: int| 0 <= i < s.len() ==> !is_white(#[trigger] s[i]) && s[i] != ','
}

/// A setting that its CSS form gives back: a four-byte tag that does not
/// begin or end with a quotation mark, and a value, both plain words.
pub open spec fn css_writable(v: VariationSetting<String>) -> bool {
    &&& plain_token(v.axis@)
    &&& utf8_len(v.axis@) == 4
    &&& v.axis@[0] != '"' && v.axis@[0] != '\''
    &&& v.axis@.last() != '"' && v.axis@.last() != '\''
    &&& plain_token(v.value@)
}

proof fn lemma_split_comma_free(a: Seq<char>, b: Seq<char>)
    requires
        !b.contains(','),
    ensures
        split_commas(a + seq![','] + b) == split_commas(a).push(b),
        split_commas(b) == seq![b],
    decreases b.len(),
{
    if b.len() == 0 {
        assert((a + seq![','] + b).drop_last() =~= a);
        assert(b =~= Seq::<char>::empty());
    } else {
        let b1 = b.drop_last();
        assert(!b1.contains(',')) by {
            if b1.contains(',') {
                let k = choose|k: int| 0 <= k < b1.len() && b1[k] == ',';
                assert(b[k] == ',');
            }
        }
        lemma_split_comma_free(a, b1);
        assert((a + seq![','] + b).drop_last() =~= a + seq![','] + b1);
        assert(b.last() != ',') by {
            assert(b[b.len() - 1] == b.last());
        }
        crate::fonts::lemma_split_nonempty(a);
        assert(b1.push(b.last()) =~= b);
        assert(split_commas(a).push(b1).update(split_commas(a).len() as int, b1.push(b.last())) =~= split_commas(a).push(b));
        assert(b.drop_last() =~= b1);
        assert(seq![b1].update(0, b1.push(b.last())) =~= seq![b]);
    }
}

proof fn lemma_words_append_token(a: Seq<char>, t: Seq<char>)
    requires
        t.len() > 0,
        forall|i: int| 0 <= i < t.len() ==> !is_white(#[trigger] t[i]),
        a.len() == 0 || is_white(a.last()),
    ensures
        words(a + t) == words(a).push(t),
    decreases t.len(),
{
    let t1 = t.drop_last();
    assert((a + t).drop_last() =~= a + t1);
    assert((a + t).last() == t[t.len() - 1]);
    if t1.len() == 0 {
        assert(t =~= seq![t[0]]);
        if (a + t).len() >= 2 {
            assert((a + t)[(a + t).len() - 2] == a.last());
        }
        assert(a + t1 =~= a);
    } else {
        lemma_words_append_token(a, t1);
        assert((a + t)[(a + t).len() - 2] == t1.last());
        assert(!is_white(t1.last())) by {
            assert(t1.last() == t[t.len() - 2]);
        }
        assert(t1.push(t.last()) =~= t);
        assert(words(a).push(t1).update(words(a).len() as int, t1.push(t.last())) =~= words(a).push(t));
    }
}

proof fn lemma_words_append_white(a: Seq<char>, c: char)
    requires
        is_white(c),
    ensures
        words(a.push(c)) == words(a),
{
    assert(a.push(c).drop_last() =~= a);
}

/// The words of one setting's part of the CSS text: the quoted tag and the
/// value.
proof fn lemma_entry_words(lead: Seq<char>, v: VariationSetting<String>)
    requires
        css_writable(v),
        lead.len() == 0 || lead == seq![' '],
    ensures
        words(lead + css_entry(v)) == seq![seq!['"'] + v.axis@ + seq!['"'], v.value@],
{
    let q = seq!['"'] + v.axis@ + seq!['"'];
    assert(is_white(' '));
    assert(!is_white('"'));
    assert(forall|i: int| 0 <= i < q.len() ==> !is_white(#[trigger] q[i])) by {
        assert forall|i: int| 0 <= i < q.len() implies !is_white(#[trigger] q[i]) by {
            if 1 <= i < q.len() - 1 {
                assert(q[i] == v.axis@[i - 1]);
            }
        }
    }
    if lead.len() == 0 {
        assert(words(lead) =~= Seq::<Seq<char>>::empty());
    } else {
        assert(lead.drop_last() =~= Seq::<char>::empty());
        assert(lead.last() == ' ');
        assert(words(lead.drop_last()) =~= Seq::<Seq<char>>::empty());
        assert(words(lead) =~= Seq::<Seq<char>>::empty());
    }
    lemma_words_append_token(lead, q);
    lemma_words_append_white(lead + q, ' ');
    assert((lead + q).push(' ').last() == ' ');
    lemma_words_append_token((lead + q).push(' '), v.value@);
    assert(lead + css_entry(v) =~= (lead + q).push(' ') + v.value@);
    assert(words(lead).push(q).push(v.value@) =~= seq![q, v.value@]);
}

proof fn lemma_unquote(v: VariationSetting<String>)
    requires
        css_writable(v),
    ensures
        trim_class(seq!['"'] + v.axis@ + seq!['"'], CharClass::Quote) == v.axis@,
{
    let a = v.axis@;
    let q = seq!['"'] + a + seq!['"'];
    assert(q.drop_first() =~= a + seq!['"']);
    assert((a + seq!['"'])[0] == a[0]);
    assert(crate::text::lead_in(a + seq!['"'], CharClass::Quote) == 0);
    assert(crate::text::lead_in(q, CharClass::Quote) == 1);
    let lead = q.skip(1);
    assert(lead =~= a + seq!['"']);
    assert(lead.drop_last() =~= a);
    assert(a.last() == a[a.len() - 1]);
    assert(crate::text::trail_in(a, CharClass::Quote) == 0);
    assert(crate::text::trail_in(lead, CharClass::Quote) == 1);
    assert(lead.take(lead.len() - 1) =~= a);
}

proof fn lemma_entry_part(lead: Seq<char>, v: VariationSetting<String>)
    requires
        css_writable(v),
        lead.len() == 0 || lead == seq![' '],
    ensures
        css_part(lead + css_entry(v)) == Some(setting_text(v)),
        !(lead + css_entry(v)).contains(','),
{
    lemma_entry_words(lead, v);
    lemma_unquote(v);
    let e = lead + css_entry(v);
    assert(!e.contains(',')) by {
        if e.contains(',') {
            let k = choose|k: int| 0 <= k < e.len() && e[k] == ',';
            let la = lead.len() as int;
            let al = v.axis@.len() as int;
            if k >= la + 1 && k < la + 1 + al {
                assert(e[k] == v.axis@[k - la - 1]);
            } else if k >= la + al + 3 {
                assert(e[k] == v.value@[k - la - al - 3]);
            }
        }
    }
}

/// Writing settings as CSS and parsing the text gives them back, when
/// every tag is a four-byte word that neither begins nor ends with a
/// quotation mark and every value is a word.
pub proof fn law_css_round_trip(vs: Seq<VariationSetting<String>>)
    requires
        forall|i: int| 0 <= i < vs.len() ==> css_writable(#[trigger] vs[i]),
    ensures
        css_settings(split_commas(css_of(vs))) == vs.map_values(|v: VariationSetting<String>| setting_text(v)),
    decreases vs.len(),
{
    if vs.len() == 0 {
        assert(split_commas(css_of(vs)) =~= seq![Seq::<char>::empty()]);
        assert(words(Seq::<char>::empty()) =~= Seq::<Seq<char>>::empty());
        assert(css_part(Seq::<char>::empty()) is None);
        assert(seq![Seq::<char>::empty()].drop_last() =~= Seq::<Seq<char>>::empty());
        assert(seq![Seq::<char>::empty()].last() == Seq::<char>::empty());
        assert(css_settings(Seq::<Seq<char>>::empty()) =~= Seq::<(Seq<char>, Seq<char>)>::empty());
        assert(css_settings(seq![Seq::<char>::empty()]).len() == 0);
        assert(vs.map_values(|v: VariationSetting<String>| setting_text(v)) =~= Seq::<(Seq<char>, Seq<char>)>::empty());
        assert(css_settings(split_commas(css_of(vs))) =~= Seq::<(Seq<char>, Seq<char>)>::empty());
    } else if vs.len() == 1 {
        assert(css_writable(vs[0]));
        lemma_entry_part(Seq::empty(), vs[0]);
        assert(Seq::<char>::empty() + css_entry(vs[0]) =~= css_entry(vs[0]));
        lemma_split_comma_free(Seq::empty(), css_entry(vs[0]));
        let parts = seq![css_entry(vs[0])];
        assert(parts.drop_last() =~= Seq::<Seq<char>>::empty());
        assert(parts.last() == css_entry(vs[0]));
        assert(css_part(css_entry(vs[0])) == Some(setting_text(vs[0])));
        assert(css_settings(Seq::<Seq<char>>::empty()) =~= Seq::<(Seq<char>, Seq<char>)>::empty());
        assert(css_settings(parts) =~= seq![setting_text(vs[0])]);
        assert(vs.map_values(|v: VariationSetting<String>| setting_text(v)) =~= seq![setting_text(vs[0])]);
    } else {
        let init = vs.drop_last();
        assert forall|i: int| 0 <= i < init.len() implies css_writable(#[trigger] init[i]) by {
            assert(init[i] == vs[i]);
        }
        law_css_round_trip(init);
        let last = vs.last();
        assert(css_writable(last)) by {
            assert(last == vs[vs.len() - 1]);
        }
        lemma_entry_part(seq![' '], last);
        let tail = seq![' '] + css_entry(last);
        lemma_split_comma_free(css_of(init), tail);
        assert(css_of(vs) =~= css_of(init) + seq![','] + tail);
        let parts = split_commas(css_of(init)).push(tail);
        assert(parts.drop_last() =~= split_commas(css_of(init)));
        assert(vs.map_values(|v: VariationSetting<String>| setting_text(v))
            =~= init.map_values(|v: VariationSetting<String>| setting_text(v)).push(setting_text(last)));
    }
}


/// A tag as the documentation asks for: four bytes, none of them white
/// space, a comma or a quotation mark.
pub open spec fn plain_tag(s: Seq<char>) -> bool {
    &&& utf8_len(s) == 4
    &&& forall|i: int| 0 <= i < s.len() ==> !is_white(#[trigger] s[i]) && s[i] != ',' && s[i] != '"' && s[i] != '\''
}

/// Writing settings as CSS and parsing the text gives them back when every
/// tag is four bytes with no white space, comma or quotation mark and every
/// value (the rendered number) is a word.
pub proof fn law_css_round_trip_plain_tags(vs: Seq<VariationSetting<String>>)
    requires
        forall|i: int| 0 <= i < vs.len() ==> plain_tag((#[trigger] vs[i]).axis@) && plain_token(vs[i].value@),
    ensures
        css_settings(split_commas(css_of(vs))) == vs.map_values(|v: VariationSetting<String>| setting_text(v)),
{
    assert forall|i: int| 0 <= i < vs.len() implies css_writable(#[trigger] vs[i]) by {
        let t = vs[i].axis@;
        if t.len() == 0 {
            assert(utf8_len(t) == 0);
        }
        assert(t[0] != '"' && t[0] != '\'');
        assert(t[t.len() - 1] != '"' && t[t.len() - 1] != '\'');
    }
    law_css_round_trip(vs);
}

} // verus!

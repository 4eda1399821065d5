//! Character classes for Japanese line breaking and small string helpers.
use vstd::prelude::*;

verus! {

/// The characters of a string slice, in order.
pub fn chars_of(s: &str) -> (v: Vec<char>)
    ensures
        v@ == s@,
{
    let mut v: Vec<char> = Vec::new();
    for c in it: s.chars()
        invariant
            v@ == it.seq().take(it.index() as int),
    {
        v.push(c);
    }
    v
}

/// Appends `tail` to `s`.
pub(crate) fn push_str(s: &mut String, tail: &str)
    ensures
        final(s)@ == old(s)@ + tail@,
{
    s.append(tail)
}

/// `String::push`: appends one character to `s`.
#[verifier::external_body]
pub(crate) fn push_char(s: &mut String, c: char)
    ensures
        final(s)@ == old(s)@.push(c),
{
    s.push(c)
}

/// The decimal digit character for `d < 10`.
pub open spec fn digit_char(d: nat) -> char {
    if d == 0 { '0' } else if d == 1 { '1' } else if d == 2 { '2' } else if d == 3 { '3' }
    else if d == 4 { '4' } else if d == 5 { '5' } else if d == 6 { '6' } else if d == 7 { '7' }
    else if d == 8 { '8' } else { '9' }
}

/// Decimal rendering of a natural number, without leading zeros.
pub open spec fn decimal(n: nat) -> Seq<char>
    decreases n,
{
    if n < 10 {
        seq![digit_char(n)]
    } else {
        decimal(n / 10).push(digit_char(n % 10))
    }
}

fn digit(d: usize) -> (c: char)
    requires
        d < 10,
    ensures
        c == digit_char(d as nat),
{
    if d == 0 { '0' } else if d == 1 { '1' } else if d == 2 { '2' } else if d == 3 { '3' }
    else if d == 4 { '4' } else if d == 5 { '5' } else if d == 6 { '6' } else if d == 7 { '7' }
    else if d == 8 { '8' } else { '9' }
}

/// Append the decimal rendering of `n`.
pub fn push_decimal(s: &mut String, n: usize)
    ensures
        final(s)@ == old(s)@ + decimal(n as nat),
    decreases n,
{
    if n >= 10 {
        push_decimal(s, n / 10);
    }
    push_char(s, digit(n % 10));
    assert(decimal(n as nat) == (if n < 10 { seq![digit_char(n as nat)] } else { decimal((n / 10) as nat).push(digit_char((n % 10) as nat)) }));
    assert(old(s)@ + decimal(n as nat) =~= final(s)@) by {
        if n >= 10 {
            assert(old(s)@ + decimal((n / 10) as nat).push(digit_char((n % 10) as nat))
                =~= (old(s)@ + decimal((n / 10) as nat)).push(digit_char((n % 10) as nat)));
        }
    }
}

/// Wide (CJK) characters: one em per glyph instead of about 0.6 em.
pub open spec fn spec_is_fullwidth(ch: char) -> bool {
    let c = ch as u32;
    (0x3000 <= c <= 0x303F) || (0x3040 <= c <= 0x309F) || (0x30A0 <= c <= 0x30FF)
    || (0x3200 <= c <= 0x33FF) || (0x3400 <= c <= 0x4DBF) || (0x4E00 <= c <= 0x9FFF)
    || (0xAC00 <= c <= 0xD7AF) || (0x1100 <= c <= 0x11FF) || (0xF900 <= c <= 0xFAFF)
    || (0xFF00 <= c <= 0xFF60) || (0xFFE0 <= c <= 0xFFE6)
}

/// Whether `ch` is a wide (CJK) character.
pub fn is_fullwidth(ch: char) -> (r: bool)
    ensures
        r == spec_is_fullwidth(ch),
{
    let c = ch as u32;
    (0x3000 <= c && c <= 0x303F) || (0x3040 <= c && c <= 0x309F) || (0x30A0 <= c && c <= 0x30FF)
    || (0x3200 <= c && c <= 0x33FF) || (0x3400 <= c && c <= 0x4DBF) || (0x4E00 <= c && c <= 0x9FFF)
    || (0xAC00 <= c && c <= 0xD7AF) || (0x1100 <= c && c <= 0x11FF) || (0xF900 <= c && c <= 0xFAFF)
    || (0xFF00 <= c && c <= 0xFF60) || (0xFFE0 <= c && c <= 0xFFE6)
}

/// Characters that must not start a line (closing brackets, punctuation,
/// the prolonged-sound mark, small kana).
pub open spec fn spec_cannot_start_line(ch: char) -> bool {
    seq!['、', '。', '，', '．', '！', '？', '!', '?', '：', '；',
        '）', '〕', '］', '｝', '〉', '》', '」', '』', '】', '\'', '"', '’', '”',
        '…', '‥', '・', 'ー', '〜', '～',
        'ぁ', 'ぃ', 'ぅ', 'ぇ', 'ぉ', 'っ', 'ゃ', 'ゅ', 'ょ', 'ゎ',
        'ァ', 'ィ', 'ゥ', 'ェ', 'ォ', 'ッ', 'ャ', 'ュ', 'ョ'].contains(ch)
}

/// Characters that must not end a line (opening brackets).
pub open spec fn spec_cannot_end_line(ch: char) -> bool {
    seq!['「', '『', '（', '〔', '［', '｛', '〈', '《', '【', '(', '[', '{', '<'].contains(ch)
}

/// Whether `ch` must not start a line.
pub fn kinsoku_cannot_start_line(ch: char) -> (r: bool)
    ensures
        r == spec_cannot_start_line(ch),
{
    let set = ['、', '。', '，', '．', '！', '？', '!', '?', '：', '；',
        '）', '〕', '］', '｝', '〉', '》', '」', '』', '】', '\'', '"', '’', '”',
        '…', '‥', '・', 'ー', '〜', '～',
        'ぁ', 'ぃ', 'ぅ', 'ぇ', 'ぉ', 'っ', 'ゃ', 'ゅ', 'ょ', 'ゎ',
        'ァ', 'ィ', 'ゥ', 'ェ', 'ォ', 'ッ', 'ャ', 'ュ', 'ョ'];
    let r = member(&set, ch);
    assert(set@ =~= seq!['、', '。', '，', '．', '！', '？', '!', '?', '：', '；',
        '）', '〕', '］', '｝', '〉', '》', '」', '』', '】', '\'', '"', '’', '”',
        '…', '‥', '・', 'ー', '〜', '～',
        'ぁ', 'ぃ', 'ぅ', 'ぇ', 'ぉ', 'っ', 'ゃ', 'ゅ', 'ょ', 'ゎ',
        'ァ', 'ィ', 'ゥ', 'ェ', 'ォ', 'ッ', 'ャ', 'ュ', 'ョ']);
    r
}

/// Whether `ch` must not end a line.
pub fn kinsoku_cannot_end_line(ch: char) -> (r: bool)
    ensures
        r == spec_cannot_end_line(ch),
{
    let set = ['「', '『', '（', '〔', '［', '｛', '〈', '《', '【', '(', '[', '{', '<'];
    let r = member(&set, ch);
    assert(set@ =~= seq!['「', '『', '（', '〔', '［', '｛', '〈', '《', '【', '(', '[', '{', '<']);
    r
}

fn member(set: &[char], ch: char) -> (r: bool)
    ensures
        r == set@.contains(ch),
{
    let n = set.len();
    for i in 0..n
        invariant
            n == set@.len(),
            forall|j: int| 0 <= j < i ==> set@[j] != ch,
    {
        if set[i] == ch {
            return true;
        }
    }
    false
}

/// Whether two string slices hold the same characters.
pub fn str_eq(a: &str, b: &str) -> (r: bool)
    ensures
        r == (a@ == b@),
{
    let x = chars_of(a);
    let y = chars_of(b);
    if x.len() != y.len() {
        return false;
    }
    let n = x.len();
    let mut i: usize = 0;
    while i < n
        invariant
            i <= n,
            n == x@.len(),
            n == y@.len(),
            x@ == a@,
            y@ == b@,
            forall|k: int| 0 <= k < i ==> x@[k] == y@[k],
        decreases n - i,
    {
        if x[i] != y[i] {
            assert(x@[i as int] != y@[i as int]);
            return false;
        }
        i += 1;
    }
    assert(x@ =~= y@);
    true
}

/// Unicode `White_Space` characters (what `str::trim` removes).
pub open spec fn is_white(c: char) -> bool {
    let v = c as u32;
    (0x9 <= v <= 0xD) || v == 0x20 || v == 0x85 || v == 0xA0 || v == 0x1680
    || (0x2000 <= v <= 0x200A) || v == 0x2028 || v == 0x2029 || v == 0x202F || v == 0x205F || v == 0x3000
}

/// Whether `c` is a white-space character.
pub fn is_white_char(c: char) -> (r: bool)
    ensures
        r == is_white(c),
{
    class_test(&CharClass::White, c)
}

/// Characters removed from the ends of a string: white space, one given
/// character, or either quotation mark (`"` and `'`).
pub enum CharClass {
    White,
    Exactly(char),
    Quote,
}

pub open spec fn class_has(k: CharClass, c: char) -> bool {
    match k {
        CharClass::White => is_white(c),
        CharClass::Exactly(x) => c == x,
        CharClass::Quote => c == '"' || c == '\'',
    }
}

fn class_test(k: &CharClass, c: char) -> (r: bool)
    ensures
        r == class_has(*k, c),
{
    match k {
        CharClass::White => {
            let v = c as u32;
            (0x9 <= v && v <= 0xD) || v == 0x20 || v == 0x85 || v == 0xA0 || v == 0x1680
            || (0x2000 <= v && v <= 0x200A) || v == 0x2028 || v == 0x2029 || v == 0x202F || v == 0x205F || v == 0x3000
        },
        CharClass::Exactly(x) => c == *x,
        CharClass::Quote => c == '"' || c == '\'',
    }
}

/// Number of leading characters of the class.
pub open spec fn lead_in(s: Seq<char>, k: CharClass) -> nat
    decreases s.len(),
{
    if s.len() > 0 && class_has(k, s[0]) { 1 + lead_in(s.drop_first(), k) } else { 0 }
}

/// Number of trailing characters of the class.
pub open spec fn trail_in(s: Seq<char>, k: CharClass) -> nat
    decreases s.len(),
{
    if s.len() > 0 && class_has(k, s.last()) { 1 + trail_in(s.drop_last(), k) } else { 0 }
}

/// `s` without leading and trailing characters of the class.
pub open spec fn trim_class(s: Seq<char>, k: CharClass) -> Seq<char> {
    let lead = s.skip(lead_in(s, k) as int);
    lead.take(lead.len() - trail_in(lead, k))
}

/// `s` without leading and trailing white space (`str::trim`).
pub open spec fn trim(s: Seq<char>) -> Seq<char> {
    trim_class(s, CharClass::White)
}

fn leading_in(s: &Vec<char>, k: &CharClass) -> (r: usize)
    ensures
        r == lead_in(s@, *k),
        r <= s@.len(),
{
    let n = s.len();
    let mut i: usize = 0;
    assert(s@.skip(0) =~= s@);
    while i < n && class_test(k, s[i])
        invariant
            i <= n,
            n == s@.len(),
            lead_in(s@, *k) == i + lead_in(s@.skip(i as int), *k),
        decreases n - i,
    {
        assert(s@.skip(i as int).drop_first() =~= s@.skip(i + 1));
        i += 1;
    }
    i
}

/// The characters of `s` without leading and trailing ones of the class.
pub fn trim_class_chars(s: &Vec<char>, k: &CharClass) -> (t: Vec<char>)
    ensures
        t@ == trim_class(s@, *k),
{
    let a = leading_in(s, k);
    let n = s.len();
    let ghost lead = s@.skip(a as int);
    let mut b = n;
    assert(lead.take(lead.len() as int) =~= lead);
    while b > a && class_test(k, s[b - 1])
        invariant
            a <= b <= n,
            n == s@.len(),
            lead == s@.skip(a as int),
            trail_in(lead, *k) == (n - b) + trail_in(lead.take(b - a), *k),
        decreases b,
    {
        assert(lead.take(b - a).drop_last() =~= lead.take(b - 1 - a));
        b -= 1;
    }
    assert(trail_in(lead.take(b - a), *k) == 0);
    let mut t: Vec<char> = Vec::new();
    let mut q = a;
    while q < b
        invariant
            a <= q <= b <= n,
            n == s@.len(),
            t@ == s@.subrange(a as int, q as int),
        decreases b - q,
    {
        t.push(s[q]);
        q += 1;
    }
    assert(t@ =~= lead.take(lead.len() - trail_in(lead, *k)));
    t
}

/// The characters of `s` without leading and trailing white space.
pub fn trim_chars(s: &Vec<char>) -> (t: Vec<char>)
    ensures
        t@ == trim(s@),
{
    trim_class_chars(s, &CharClass::White)
}


/// The characters that must not start a line (行頭禁則) are these: the
/// ideographic comma and full stop, the other closing punctuation and
/// brackets, quotation marks, the ellipses, middle dot, prolonged-sound
/// mark and wave dashes, and the small kana.
pub proof fn law_line_start_prohibitions(c: char)
    ensures
        (c == '、' || c == '。' || c == '，' || c == '．' || c == '！' || c == '？' || c == '!'
            || c == '?' || c == '：' || c == '；' || c == '）' || c == '〕' || c == '］' || c == '｝'
            || c == '〉' || c == '》' || c == '」' || c == '』' || c == '】' || c == '\'' || c == '"'
            || c == '’' || c == '”' || c == '…' || c == '‥' || c == '・' || c == 'ー' || c == '〜'
            || c == '～' || c == 'ぁ' || c == 'ぃ' || c == 'ぅ' || c == 'ぇ' || c == 'ぉ' || c == 'っ'
            || c == 'ゃ' || c == 'ゅ' || c == 'ょ' || c == 'ゎ' || c == 'ァ' || c == 'ィ' || c == 'ゥ'
            || c == 'ェ' || c == 'ォ' || c == 'ッ' || c == 'ャ' || c == 'ュ' || c == 'ョ')
            ==> spec_cannot_start_line(c),
{
    let s = seq!['、', '。', '，', '．', '！', '？', '!', '?', '：', '；', '）', '〕', '］', '｝', '〉', '》', '」', '』', '】', '\'', '"', '’', '”', '…', '‥', '・', 'ー', '〜', '～', 'ぁ', 'ぃ', 'ぅ', 'ぇ', 'ぉ', 'っ', 'ゃ', 'ゅ', 'ょ', 'ゎ', 'ァ', 'ィ', 'ゥ', 'ェ', 'ォ', 'ッ', 'ャ', 'ュ', 'ョ'];
    if c == '、' {
        assert(s[0] == c);
    } else if c == '。' {
        assert(s[1] == c);
    } else if c == '，' {
        assert(s[2] == c);
    } else if c == '．' {
        assert(s[3] == c);
    } else if c == '！' {
        assert(s[4] == c);
    } else if c == '？' {
        assert(s[5] == c);
    } else if c == '!' {
        assert(s[6] == c);
    } else if c == '?' {
        assert(s[7] == c);
    } else if c == '：' {
        assert(s[8] == c);
    } else if c == '；' {
        assert(s[9] == c);
    } else if c == '）' {
        assert(s[10] == c);
    } else if c == '〕' {
        assert(s[11] == c);
    } else if c == '］' {
        assert(s[12] == c);
    } else if c == '｝' {
        assert(s[13] == c);
    } else if c == '〉' {
        assert(s[14] == c);
    } else if c == '》' {
        assert(s[15] == c);
    } else if c == '」' {
        assert(s[16] == c);
    } else if c == '』' {
        assert(s[17] == c);
    } else if c == '】' {
        assert(s[18] == c);
    } else if c == '\'' {
        assert(s[19] == c);
    } else if c == '"' {
        assert(s[20] == c);
    } else if c == '’' {
        assert(s[21] == c);
    } else if c == '”' {
        assert(s[22] == c);
    } else if c == '…' {
        assert(s[23] == c);
    } else if c == '‥' {
        assert(s[24] == c);
    } else if c == '・' {
        assert(s[25] == c);
    } else if c == 'ー' {
        assert(s[26] == c);
    } else if c == '〜' {
        assert(s[27] == c);
    } else if c == '～' {
        assert(s[28] == c);
    } else if c == 'ぁ' {
        assert(s[29] == c);
    } else if c == 'ぃ' {
        assert(s[30] == c);
    } else if c == 'ぅ' {
        assert(s[31] == c);
    } else if c == 'ぇ' {
        assert(s[32] == c);
    } else if c == 'ぉ' {
        assert(s[33] == c);
    } else if c == 'っ' {
        assert(s[34] == c);
    } else if c == 'ゃ' {
        assert(s[35] == c);
    } else if c == 'ゅ' {
        assert(s[36] == c);
    } else if c == 'ょ' {
        assert(s[37] == c);
    } else if c == 'ゎ' {
        assert(s[38] == c);
    } else if c == 'ァ' {
        assert(s[39] == c);
    } else if c == 'ィ' {
        assert(s[40] == c);
    } else if c == 'ゥ' {
        assert(s[41] == c);
    } else if c == 'ェ' {
        assert(s[42] == c);
    } else if c == 'ォ' {
        assert(s[43] == c);
    } else if c == 'ッ' {
        assert(s[44] == c);
    } else if c == 'ャ' {
        assert(s[45] == c);
    } else if c == 'ュ' {
        assert(s[46] == c);
    } else if c == 'ョ' {
        assert(s[47] == c);
    }
}

/// The characters that must not end a line (行末禁則) are the opening
/// brackets.
pub proof fn law_line_end_prohibitions(c: char)
    ensures
        (c == '「' || c == '『' || c == '（' || c == '〔' || c == '［' || c == '｛' || c == '〈'
            || c == '《' || c == '【' || c == '(' || c == '[' || c == '{' || c == '<')
            ==> spec_cannot_end_line(c),
{
    let s = seq!['「', '『', '（', '〔', '［', '｛', '〈', '《', '【', '(', '[', '{', '<'];
    if c == '「' {
        assert(s[0] == c);
    } else if c == '『' {
        assert(s[1] == c);
    } else if c == '（' {
        assert(s[2] == c);
    } else if c == '〔' {
        assert(s[3] == c);
    } else if c == '［' {
        assert(s[4] == c);
    } else if c == '｛' {
        assert(s[5] == c);
    } else if c == '〈' {
        assert(s[6] == c);
    } else if c == '《' {
        assert(s[7] == c);
    } else if c == '【' {
        assert(s[8] == c);
    } else if c == '(' {
        assert(s[9] == c);
    } else if c == '[' {
        assert(s[10] == c);
    } else if c == '{' {
        assert(s[11] == c);
    } else if c == '<' {
        assert(s[12] == c);
    }
}

} // verus!

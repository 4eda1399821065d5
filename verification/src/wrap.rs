//! Line breaking of text: hard breaks split paragraphs, and within a
//! paragraph the lines are broken at spaces and after wide characters,
//! subject to Japanese kinsoku rules. Measuring the characters (floating
//! point) is the caller's part: it walks a `LineWrap` one character at a
//! time and says whether the character still fits on the current line.
use vstd::prelude::*;
use crate::text::{law_line_start_prohibitions, law_line_end_prohibitions, chars_of, push_char, is_fullwidth, kinsoku_cannot_start_line, kinsoku_cannot_end_line,
    spec_is_fullwidth, spec_cannot_start_line, spec_cannot_end_line};

verus! {

/// The paragraphs of a text: the pieces between `'\n'` characters (a text
/// without one is a single paragraph; an empty text is one empty one).
pub open spec fn paragraphs(s: Seq<char>) -> Seq<Seq<char>>
    decreases s.len(),
{
    if s.len() == 0 {
        seq![Seq::empty()]
    } else {
        let rest = paragraphs(s.drop_last());
        if s.last() == '\n' {
            rest.push(Seq::empty())
        } else {
            rest.update(rest.len() - 1, rest.last().push(s.last()))
        }
    }
}

proof fn lemma_paragraphs_nonempty(s: Seq<char>)
    ensures
        paragraphs(s).len() >= 1,
    decreases s.len(),
{
    if s.len() > 0 {
        lemma_paragraphs_nonempty(s.drop_last());
    }
}

/// The paragraphs of `text`, each as its characters.
pub fn split_paragraphs(text: &str) -> (r: Vec<Vec<char>>)
    ensures
        r@.map_values(|p: Vec<char>| p@) == paragraphs(text@),
{
    let cs = chars_of(text);
    let mut done: Vec<Vec<char>> = Vec::new();
    let mut cur: Vec<char> = Vec::new();
    let mut i: usize = 0;
    assert(cs@.take(0) =~= Seq::<char>::empty());
    while i < cs.len()
        invariant
            i <= cs@.len(),
            cs@ == text@,
            done@.map_values(|p: Vec<char>| p@).push(cur@) == paragraphs(cs@.take(i as int)),
        decreases cs@.len() - i,
    {
        let ghost before = done@.map_values(|p: Vec<char>| p@).push(cur@);
        proof {
            assert(cs@.take(i + 1).drop_last() =~= cs@.take(i as int));
            lemma_paragraphs_nonempty(cs@.take(i as int));
        }
        if cs[i] == '\n' {
            let full = cur;
            cur = Vec::new();
            done.push(full);
            proof {
                assert(done@.map_values(|p: Vec<char>| p@).push(cur@) =~= before.push(Seq::empty()));
            }
        } else {
            cur.push(cs[i]);
            proof {
                assert(done@.map_values(|p: Vec<char>| p@).push(cur@)
                    =~= before.update(before.len() - 1, before.last().push(cs@[i as int])));
            }
        }
        i += 1;
    }
    assert(cs@.take(cs@.len() as int) =~= cs@);
    done.push(cur);
    assert(done@.map_values(|p: Vec<char>| p@) =~= paragraphs(text@));
    done
}

/// Moving a break back over characters that must not end a line, but not
/// before the line's first character.
pub open spec fn back_over_openers(cs: Seq<char>, start: nat, end: nat) -> nat
    decreases end,
{
    if end > start + 1 && end <= cs.len() && spec_cannot_end_line(cs[end - 1]) {
        back_over_openers(cs, start, (end - 1) as nat)
    } else {
        end
    }
}

/// Moving a break forward over characters that must not start a line.
pub open spec fn forward_over_closers(cs: Seq<char>, end: nat) -> nat
    decreases cs.len() - end,
{
    if end < cs.len() && spec_cannot_start_line(cs[end as int]) {
        forward_over_closers(cs, end + 1)
    } else {
        end
    }
}

/// Where a line that starts at `start` is broken when the character at
/// `pos` overflows it: at the last allowed break, else before `pos`; moved
/// back over opening marks, then forward over closing marks; at least one
/// character is always taken.
pub open spec fn break_end(cs: Seq<char>, start: nat, last_break: Option<usize>, pos: nat) -> nat {
    let e0: nat = match last_break {
        Some(b) => b as nat,
        None => pos,
    };
    let e = forward_over_closers(cs, back_over_openers(cs, start, e0));
    if e <= start {
        if start + 1 < cs.len() { start + 1 } else { cs.len() }
    } else {
        e
    }
}

/// After the character at `pos` fits: whether a line may break after it
/// (it is a space or a wide character that may end a line, and the next
/// character, if any, may start one).
pub open spec fn break_allowed_after(cs: Seq<char>, pos: int) -> bool {
    let ch = cs[pos];
    (ch == ' ' || spec_is_fullwidth(ch)) && !spec_cannot_end_line(ch)
        && (pos + 1 >= cs.len() || !spec_cannot_start_line(cs[pos + 1]))
}

/// `lines` are consecutive pieces of `cs` that end at `upto`: each line
/// starts where the one before it ended, or one space later.
pub open spec fn tiles(lines: Seq<Seq<char>>, cs: Seq<char>, upto: int) -> bool
    decreases lines.len(),
{
    if lines.len() == 0 {
        upto == 0
    } else {
        let n = lines.last().len() as int;
        &&& upto <= cs.len()
        &&& {
            ||| (upto - n >= 0 && lines.last() == cs.subrange(upto - n, upto) && tiles(lines.drop_last(), cs, upto - n))
            ||| (upto - n - 1 >= 0 && cs[upto - 1] == ' ' && lines.last() == cs.subrange(upto - n - 1, upto - 1)
                && tiles(lines.drop_last(), cs, upto - n - 1))
        }
    }
}

proof fn lemma_tiles_push(lines: Seq<Seq<char>>, cs: Seq<char>, s: int, line: Seq<char>, upto: int)
    requires
        tiles(lines, cs, s),
        0 <= s,
        s + line.len() <= cs.len(),
        line == cs.subrange(s, s + line.len()),
        upto == s + line.len() || (upto == s + line.len() + 1 && upto <= cs.len() && cs[s + line.len()] == ' '),
    ensures
        tiles(lines.push(line), cs, upto),
{
    let l2 = lines.push(line);
    assert(l2.drop_last() =~= lines);
    assert(l2.last() == line);
    assert(tiles(l2.drop_last(), cs, s));
}

/// The state of breaking one paragraph into lines.
pub struct LineWrap {
    /// The paragraph's characters.
    pub chars: Vec<char>,
    /// Where the current line starts.
    pub line_start: usize,
    /// The next character to measure.
    pub pos: usize,
    /// The last position at which the current line may be broken.
    pub last_break: Option<usize>,
    /// The lines completed so far.
    pub lines: Vec<String>,
}

impl LineWrap {
    pub open spec fn wf(&self) -> bool {
        &&& self.line_start <= self.pos <= self.chars@.len()
        &&& self.last_break matches Some(b) ==> self.line_start < b <= self.pos
        &&& tiles(self.line_texts(), self.chars@, self.line_start as int)
    }

    /// The completed lines, as text.
    pub open spec fn line_texts(&self) -> Seq<Seq<char>> {
        self.lines@.map_values(|l: String| l@)
    }

    /// Start breaking a paragraph (its characters, without `'\n'`).
    pub fn new(chars: Vec<char>) -> (w: LineWrap)
        ensures
            w.wf(),
            w.chars@ == chars@,
            w.line_start == 0 && w.pos == 0 && w.last_break is None,
            w.line_texts().len() == 0,
    {
        let w = LineWrap { chars, line_start: 0, pos: 0, last_break: None, lines: Vec::new() };
        assert(w.line_texts() =~= Seq::<Seq<char>>::empty());
        assert(tiles(w.line_texts(), w.chars@, 0));
        w
    }

    /// The next character to measure, if any is left.
    pub fn current(&self) -> (r: Option<char>)
        requires
            self.wf(),
        ensures
            r == (if self.pos < self.chars@.len() { Some(self.chars@[self.pos as int]) } else { None }),
    {
        if self.pos < self.chars.len() { Some(self.chars[self.pos]) } else { None }
    }

    /// Whether the next character would be the first of its line (it is
    /// then taken even if it does not fit).
    pub fn at_line_start(&self) -> (r: bool)
        ensures
            r == (self.pos == self.line_start),
    {
        self.pos == self.line_start
    }

    /// The next character fits on the current line: take it, and note a
    /// break opportunity after it where one is allowed.
    pub fn advance(&mut self)
        requires
            old(self).wf(),
            old(self).pos < old(self).chars@.len(),
        ensures
            final(self).wf(),
            final(self).chars == old(self).chars,
            final(self).lines == old(self).lines,
            final(self).line_start == old(self).line_start,
            final(self).pos == old(self).pos + 1,
            final(self).last_break == (if break_allowed_after(old(self).chars@, old(self).pos as int) {
                Some((old(self).pos + 1) as usize)
            } else {
                old(self).last_break
            }),
    {
        let i = self.pos;
        let ch = self.chars[i];
        let next_ok = i >= self.chars.len() - 1 || !kinsoku_cannot_start_line(self.chars[i + 1]);
        if (ch == ' ' || is_fullwidth(ch)) && !kinsoku_cannot_end_line(ch) && next_ok {
            self.last_break = Some(i + 1);
        }
        self.pos = i + 1;
    }

    /// The next character overflows the current line: complete the line at
    /// `break_end`, skip one space after the break, and start the next
    /// line there.
    pub fn break_line(&mut self)
        requires
            old(self).wf(),
            old(self).line_start < old(self).pos < old(self).chars@.len(),
        ensures
            final(self).wf(),
            final(self).chars == old(self).chars,
            ({
                let cs = old(self).chars@;
                let e = break_end(cs, old(self).line_start as nat, old(self).last_break, old(self).pos as nat);
                let next = if e < cs.len() && cs[e as int] == ' ' { e + 1 } else { e };
                &&& final(self).line_texts() == old(self).line_texts().push(cs.subrange(old(self).line_start as int, e as int))
                &&& final(self).line_start == next
                &&& final(self).pos == next
                &&& final(self).last_break is None
            }),
    {
        let ghost cs = self.chars@;
        let start = self.line_start;
        let mut end = match self.last_break {
            Some(b) => b,
            None => self.pos,
        };
        let ghost e0 = end as nat;
        while end > start + 1 && kinsoku_cannot_end_line(self.chars[end - 1])
            invariant
                start < end <= self.chars@.len(),
                cs == self.chars@,
                back_over_openers(cs, start as nat, end as nat) == back_over_openers(cs, start as nat, e0),
            decreases end,
        {
            end -= 1;
        }
        let ghost e1 = end as nat;
        assert(back_over_openers(cs, start as nat, e1) == e1);
        while end < self.chars.len() && kinsoku_cannot_start_line(self.chars[end])
            invariant
                start < end <= self.chars@.len(),
                cs == self.chars@,
                forward_over_closers(cs, end as nat) == forward_over_closers(cs, e1),
            decreases self.chars@.len() - end,
        {
            end += 1;
        }
        assert(forward_over_closers(cs, end as nat) == end);
        if end <= start {
            end = if start + 1 < self.chars.len() { start + 1 } else { self.chars.len() };
        }
        let line = string_of(&self.chars, start, end);
        let ghost before = self.line_texts();
        self.lines.push(line);
        assert(self.line_texts() =~= before.push(cs.subrange(start as int, end as int)));
        let mut next = end;
        if next < self.chars.len() && self.chars[next] == ' ' {
            next += 1;
        }
        self.line_start = next;
        self.pos = next;
        self.last_break = None;
        proof {
            let ls = self.line_texts();
            assert(ls.drop_last() == before);
            assert(ls.last() == cs.subrange(start as int, end as int));
            assert(tiles(ls.drop_last(), cs, start as int));
            assert(ls.len() > 0);
            let n = ls.last().len() as int;
            assert(n == end - start);
            assert(ls.last() == cs.subrange(start as int, start + n));
            assert(next == start + n || (next == start + n + 1 && cs[start + n] == ' '));
            lemma_tiles_push(before, cs, start as int, ls.last(), next as int);
            assert(ls =~= before.push(ls.last()));
            assert(tiles(ls, cs, next as int));
        }
    }

    /// The lines of the paragraph: the completed ones and the rest. They
    /// tile the paragraph: joined in order, with the one space skipped at
    /// some breaks put back, they give its text.
    pub fn finish(self) -> (r: Vec<String>)
        requires
            self.wf(),
        ensures
            r@.map_values(|l: String| l@) == self.line_texts().push(self.chars@.subrange(self.line_start as int, self.chars@.len() as int)),
            tiles(r@.map_values(|l: String| l@), self.chars@, self.chars@.len() as int),
    {
        let ghost before = self.line_texts();
        let ghost cs = self.chars@;
        let ghost ls = self.line_start;
        let LineWrap { chars, line_start, pos: _, last_break: _, lines } = self;
        let mut lines = lines;
        let rest = string_of(&chars, line_start, chars.len());
        lines.push(rest);
        assert(lines@.map_values(|l: String| l@) =~= before.push(cs.subrange(ls as int, cs.len() as int)));
        proof {
            let all = lines@.map_values(|l: String| l@);
            assert(all.drop_last() == before);
            assert(tiles(all.drop_last(), cs, ls as int));
            assert(all.len() > 0);
            let n = all.last().len() as int;
            assert(all.last() == cs.subrange(ls as int, cs.len() as int));
            assert(n == cs.len() - ls);
            assert(all.last() == cs.subrange(ls as int, ls + n));
            lemma_tiles_push(before, cs, ls as int, all.last(), cs.len() as int);
            assert(all =~= before.push(all.last()));
            assert(tiles(all, cs, cs.len() as int));
        }
        lines
    }
}

fn string_of(cs: &Vec<char>, from: usize, to: usize) -> (r: String)
    requires
        from <= to <= cs@.len(),
    ensures
        r@ == cs@.subrange(from as int, to as int),
{
    let mut s = String::new();
    let mut k = from;
    while k < to
        invariant
            from <= k <= to,
            to <= cs@.len(),
            s@ == cs@.subrange(from as int, k as int),
        decreases to - k,
    {
        push_char(&mut s, cs[k]);
        assert(cs@.subrange(from as int, k + 1) =~= cs@.subrange(from as int, k as int).push(cs@[k as int]));
        k += 1;
    }
    s
}

/// No character both must not start and must not end a line.
pub proof fn lemma_kinsoku_sets_disjoint(ch: char)
    ensures
        spec_cannot_start_line(ch) ==> !spec_cannot_end_line(ch),
{

}

proof fn lemma_back_over_openers(cs: Seq<char>, start: nat, end: nat)
    requires
        start < end <= cs.len(),
    ensures
        start < back_over_openers(cs, start, end) <= end,
        back_over_openers(cs, start, end) == start + 1
            || !spec_cannot_end_line(cs[back_over_openers(cs, start, end) - 1]),
    decreases end,
{
    if end > start + 1 && spec_cannot_end_line(cs[end - 1]) {
        lemma_back_over_openers(cs, start, (end - 1) as nat);
    }
}

proof fn lemma_forward_over_closers(cs: Seq<char>, end: nat)
    requires
        end <= cs.len(),
    ensures
        end <= forward_over_closers(cs, end) <= cs.len(),
        forward_over_closers(cs, end) == cs.len() || !spec_cannot_start_line(cs[forward_over_closers(cs, end) as int]),
        forward_over_closers(cs, end) > end ==> spec_cannot_start_line(cs[forward_over_closers(cs, end) - 1]),
    decreases cs.len() - end,
{
    if end < cs.len() && spec_cannot_start_line(cs[end as int]) {
        lemma_forward_over_closers(cs, end + 1);
    }
}

/// Kinsoku: a line broken at `break_end` holds at least one character,
/// the next line does not start with a closing mark, and the line does
/// not end with an opening mark unless that mark is all it holds.
pub proof fn law_kinsoku_breaks(cs: Seq<char>, start: nat, last_break: Option<usize>, pos: nat)
    requires
        start < pos < cs.len(),
        last_break matches Some(b) ==> start < b <= pos,
    ensures
        start < break_end(cs, start, last_break, pos) <= cs.len(),
        break_end(cs, start, last_break, pos) == cs.len()
            || !spec_cannot_start_line(cs[break_end(cs, start, last_break, pos) as int]),
        break_end(cs, start, last_break, pos) == start + 1
            || !spec_cannot_end_line(cs[break_end(cs, start, last_break, pos) - 1]),
{
    let e0: nat = match last_break {
        Some(b) => b as nat,
        None => pos,
    };
    lemma_back_over_openers(cs, start, e0);
    let e1 = back_over_openers(cs, start, e0);
    lemma_forward_over_closers(cs, e1);
    let e = forward_over_closers(cs, e1);
    if e > e1 {
        lemma_kinsoku_sets_disjoint(cs[e - 1]);
    }
}


/// Where the wrapper breaks a line, the next line does not begin with a
/// character that must not start a line (the ideographic comma or full
/// stop, a closing bracket, a small kana, ...), and the broken line does
/// not end with an opening bracket unless that bracket is all it holds.
pub proof fn law_breaks_respect_kinsoku(cs: Seq<char>, start: nat, last_break: Option<usize>, pos: nat)
    requires
        start < pos < cs.len(),
        last_break matches Some(b) ==> start < b <= pos,
    ensures
        ({
            let e = break_end(cs, start, last_break, pos);
            let c = cs[e as int];
            e == cs.len() || !(c == '、' || c == '。' || c == '，' || c == '．' || c == '！' || c == '？' || c == '!'
            || c == '?' || c == '：' || c == '；' || c == '）' || c == '〕' || c == '］' || c == '｝'
            || c == '〉' || c == '》' || c == '」' || c == '』' || c == '】' || c == '\'' || c == '"'
            || c == '’' || c == '”' || c == '…' || c == '‥' || c == '・' || c == 'ー' || c == '〜'
            || c == '～' || c == 'ぁ' || c == 'ぃ' || c == 'ぅ' || c == 'ぇ' || c == 'ぉ' || c == 'っ'
            || c == 'ゃ' || c == 'ゅ' || c == 'ょ' || c == 'ゎ' || c == 'ァ' || c == 'ィ' || c == 'ゥ'
            || c == 'ェ' || c == 'ォ' || c == 'ッ' || c == 'ャ' || c == 'ュ' || c == 'ョ')
        }),
        ({
            let e = break_end(cs, start, last_break, pos);
            let c = cs[e - 1];
            e == start + 1 || !(c == '「' || c == '『' || c == '（' || c == '〔' || c == '［' || c == '｛' || c == '〈'
            || c == '《' || c == '【' || c == '(' || c == '[' || c == '{' || c == '<')
        }),
{
    law_kinsoku_breaks(cs, start, last_break, pos);
    let e = break_end(cs, start, last_break, pos);
    if e < cs.len() {
        law_line_start_prohibitions(cs[e as int]);
    }
    law_line_end_prohibitions(cs[e - 1]);
}

} // verus!

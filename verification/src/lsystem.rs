//! L-system presets, their string rewriting, and the turtle commands of an
//! expanded string. Turning headings and steps into coordinates is the
//! caller's part.
use vstd::prelude::*;
use crate::text::{chars_of, push_char, push_str};

verus! {

/// A built-in L-system.
#[derive(PartialEq, Eq, Structural, Clone, Copy, Debug)]
pub enum LSystemPreset {
    Tree,
    Dragon,
    Snowflake,
    Hilbert,
}

/// Most rewriting rounds ever performed: the string grows exponentially.
pub const MAX_LSYSTEM_ITERATIONS: usize = 6;

/// The start string of a preset.
pub open spec fn start_string(p: LSystemPreset) -> Seq<char> {
    match p {
        LSystemPreset::Tree => "X"@,
        LSystemPreset::Dragon => "FX"@,
        LSystemPreset::Snowflake => "F--F--F"@,
        LSystemPreset::Hilbert => "A"@,
    }
}

/// The replacement of a symbol under a preset's rules, if it has one.
pub open spec fn rule(p: LSystemPreset, c: char) -> Option<Seq<char>> {
    match p {
        LSystemPreset::Tree => if c == 'X' {
            Some("F+[[X]-X]-F[-FX]+X"@)
        } else if c == 'F' {
            Some("FF"@)
        } else {
            None
        },
        LSystemPreset::Dragon => if c == 'X' {
            Some("X+YF+"@)
        } else if c == 'Y' {
            Some("-FX-Y"@)
        } else {
            None
        },
        LSystemPreset::Snowflake => if c == 'F' {
            Some("F+F--F+F"@)
        } else {
            None
        },
        LSystemPreset::Hilbert => if c == 'A' {
            Some("-BF+AFA+FB-"@)
        } else if c == 'B' {
            Some("+AF-BFB-FA+"@)
        } else {
            None
        },
    }
}

/// What one symbol becomes in a rewriting round.
pub open spec fn piece(p: LSystemPreset, c: char) -> Seq<char> {
    match rule(p, c) {
        Some(r) => r,
        None => seq![c],
    }
}

/// One rewriting round: every symbol replaced by its piece, in order.
pub open spec fn rewrite(p: LSystemPreset, s: Seq<char>) -> Seq<char>
    decreases s.len(),
{
    if s.len() == 0 {
        Seq::empty()
    } else {
        rewrite(p, s.drop_last()) + piece(p, s.last())
    }
}

/// The string after `n` rewriting rounds.
pub open spec fn expansion(p: LSystemPreset, n: nat) -> Seq<char>
    decreases n,
{
    if n == 0 {
        start_string(p)
    } else {
        rewrite(p, expansion(p, (n - 1) as nat))
    }
}

fn start_text(p: LSystemPreset) -> (r: &'static str)
    ensures
        r@ == start_string(p),
{
    match p {
        LSystemPreset::Tree => "X",
        LSystemPreset::Dragon => "FX",
        LSystemPreset::Snowflake => "F--F--F",
        LSystemPreset::Hilbert => "A",
    }
}

fn rule_text(p: LSystemPreset, c: char) -> (r: Option<&'static str>)
    ensures
        match r {
            Some(t) => rule(p, c) == Some(t@),
            None => rule(p, c) is None,
        },
{
    match p {
        LSystemPreset::Tree => if c == 'X' {
            Some("F+[[X]-X]-F[-FX]+X")
        } else if c == 'F' {
            Some("FF")
        } else {
            None
        },
        LSystemPreset::Dragon => if c == 'X' {
            Some("X+YF+")
        } else if c == 'Y' {
            Some("-FX-Y")
        } else {
            None
        },
        LSystemPreset::Snowflake => if c == 'F' {
            Some("F+F--F+F")
        } else {
            None
        },
        LSystemPreset::Hilbert => if c == 'A' {
            Some("-BF+AFA+FB-")
        } else if c == 'B' {
            Some("+AF-BFB-FA+")
        } else {
            None
        },
    }
}

fn rewrite_once(p: LSystemPreset, current: &str) -> (next: String)
    ensures
        next@ == rewrite(p, current@),
{
    let cs = chars_of(current);
    let mut next = String::new();
    let n = cs.len();
    let mut i: usize = 0;
    while i < n
        invariant
            i <= n,
            n == cs@.len(),
            cs@ == current@,
            next@ == rewrite(p, cs@.take(i as int)),
        decreases n - i,
    {
        let c = cs[i];
        assert(cs@.take(i + 1).drop_last() =~= cs@.take(i as int));
        match rule_text(p, c) {
            Some(t) => push_str(&mut next, t),
            None => push_char(&mut next, c),
        }
        i += 1;
    }
    assert(cs@.take(n as int) =~= cs@);
    next
}

/// The preset's string after `min(iterations, 6)` rewriting rounds.
pub fn expand_lsystem(preset: LSystemPreset, iterations: usize) -> (r: String)
    ensures
        r@ == expansion(preset, if iterations < MAX_LSYSTEM_ITERATIONS { iterations as nat } else { MAX_LSYSTEM_ITERATIONS as nat }),
{
    let iters = if iterations < MAX_LSYSTEM_ITERATIONS { iterations } else { MAX_LSYSTEM_ITERATIONS };
    let mut current = start_text(preset).to_string();
    let mut k: usize = 0;
    while k < iters
        invariant
            k <= iters,
            current@ == expansion(preset, k as nat),
        decreases iters - k,
    {
        current = rewrite_once(preset, current.as_str());
        k += 1;
    }
    current
}


/// One drawing command of the turtle.
#[derive(PartialEq, Eq, Structural, Clone, Copy, Debug)]
pub enum TurtleOp {
    /// Draw one step from the current point, heading the given number of
    /// turn angles from the start heading (`+` counts up, `-` down); the
    /// step's end is the new current point.
    Line(i64),
    /// Move, without drawing, to the point reached after the given number
    /// of drawn steps (0: the start point).
    Jump(usize),
}

/// The turtle: its heading in turn angles, the number of steps drawn, the
/// point it stands on (by the number of steps that reached it) and the
/// saved (point, heading) pairs.
pub struct Turtle {
    pub turns: int,
    pub lines: nat,
    pub at: nat,
    pub stack: Seq<(nat, int)>,
}

/// One character: `F` and `G` draw a step, `+` and `-` turn, `[` saves the
/// point and heading, `]` returns to the last saved ones (if any) and
/// jumps there; other characters do nothing.
pub open spec fn turtle_step(t: Turtle, c: char) -> (Turtle, Option<TurtleOp>) {
    if c == 'F' || c == 'G' {
        (Turtle { lines: t.lines + 1, at: t.lines + 1, ..t }, Some(TurtleOp::Line(t.turns as i64)))
    } else if c == '+' {
        (Turtle { turns: t.turns + 1, ..t }, None)
    } else if c == '-' {
        (Turtle { turns: t.turns - 1, ..t }, None)
    } else if c == '[' {
        (Turtle { stack: t.stack.push((t.at, t.turns)), ..t }, None)
    } else if c == ']' && t.stack.len() > 0 {
        let (a, tr) = t.stack.last();
        (Turtle { at: a, turns: tr, stack: t.stack.drop_last(), ..t }, Some(TurtleOp::Jump(a as usize)))
    } else {
        (t, None)
    }
}

/// The turtle after the string, and the commands it gave.
pub open spec fn turtle_run(cs: Seq<char>) -> (Turtle, Seq<TurtleOp>)
    decreases cs.len(),
{
    if cs.len() == 0 {
        (Turtle { turns: 0, lines: 0, at: 0, stack: Seq::empty() }, Seq::empty())
    } else {
        let prev = turtle_run(cs.drop_last());
        let step = turtle_step(prev.0, cs.last());
        (step.0, match step.1 {
            Some(op) => prev.1.push(op),
            None => prev.1,
        })
    }
}

/// The saved pairs as the model holds them.
pub open spec fn stack_model(s: Seq<(usize, i64)>) -> Seq<(nat, int)> {
    s.map_values(|p: (usize, i64)| (p.0 as nat, p.1 as int))
}

/// The turtle commands that draw an expanded L-system string.
pub fn turtle_ops(cs: &Vec<char>) -> (r: Vec<TurtleOp>)
    requires
        cs@.len() <= i64::MAX,
    ensures
        r@ == turtle_run(cs@).1,
{
    let n = cs.len();
    let mut ops: Vec<TurtleOp> = Vec::new();
    let mut turns: i64 = 0;
    let mut lines: usize = 0;
    let mut at: usize = 0;
    let mut stack: Vec<(usize, i64)> = Vec::new();
    let mut i: usize = 0;
    assert(cs@.take(0) =~= Seq::<char>::empty());
    assert(stack_model(stack@) =~= Seq::<(nat, int)>::empty());
    while i < n
        invariant
            n == cs@.len(),
            n <= i64::MAX,
            i <= n,
            -(i as int) <= turns <= i,
            lines <= i,
            at <= lines,
            forall|j: int| 0 <= j < stack@.len() ==> -(i as int) <= #[trigger] stack@[j].1 <= i && stack@[j].0 <= lines,
            turtle_run(cs@.take(i as int)) == (Turtle { turns: turns as int, lines: lines as nat, at: at as nat, stack: stack_model(stack@) }, ops@),
        decreases n - i,
    {
        assert(cs@.take(i + 1).drop_last() =~= cs@.take(i as int));
        assert(cs@.take(i + 1).last() == cs@[i as int]);
        let c = cs[i];
        if c == 'F' || c == 'G' {
            ops.push(TurtleOp::Line(turns));
            lines = lines + 1;
            at = lines;
        } else if c == '+' {
            turns = turns + 1;
        } else if c == '-' {
            turns = turns - 1;
        } else if c == '[' {
            let ghost before = stack@;
            stack.push((at, turns));
            assert(stack_model(stack@) =~= stack_model(before).push((at as nat, turns as int)));
        } else if c == ']' && stack.len() > 0 {
            let ghost before = stack@;
            let (a, tr) = stack.pop().unwrap();
            assert(before.last() == (a, tr));
            assert(stack_model(stack@) =~= stack_model(before).drop_last());
            assert(stack_model(before).last() == (a as nat, tr as int));
            at = a;
            turns = tr;
            ops.push(TurtleOp::Jump(a));
        }
        i += 1;
    }
    assert(cs@.take(n as int) =~= cs@);
    ops
}

} // verus!

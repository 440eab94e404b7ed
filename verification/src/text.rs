//! Steps and values as text, in decimal notation.
//!
//! A fixed-point value is written as the real it stands for: the whole
//! part, then, unless it is zero, a point and the thousandths without
//! trailing zeros.

use vstd::prelude::*;
use vstd::string::StringExecFns;
use crate::moves::PathStep;

verus! {

/// The character of a decimal digit.
pub open spec fn digit(d: int) -> char {
    if d == 0 {
        '0'
    } else if d == 1 {
        '1'
    } else if d == 2 {
        '2'
    } else if d == 3 {
        '3'
    } else if d == 4 {
        '4'
    } else if d == 5 {
        '5'
    } else if d == 6 {
        '6'
    } else if d == 7 {
        '7'
    } else if d == 8 {
        '8'
    } else {
        '9'
    }
}

/// A natural number in decimal, without leading zeros.
pub open spec fn natural_text(n: nat) -> Seq<char>
    decreases n,
{
    if n < 10 {
        seq![digit(n as int)]
    } else {
        natural_text(n / 10).push(digit((n % 10) as int))
    }
}

/// A number of thousandths between 1 and 999 as the digits behind the
/// point, without trailing zeros.
pub open spec fn thousandths_text(f: nat) -> Seq<char> {
    if f % 100 == 0 {
        seq![digit((f / 100) as int)]
    } else if f % 10 == 0 {
        seq![digit((f / 100) as int), digit(((f / 10) % 10) as int)]
    } else {
        seq![digit((f / 100) as int), digit(((f / 10) % 10) as int), digit((f % 10) as int)]
    }
}

/// The size of a value, without its sign.
pub open spec fn size_of(v: i64) -> nat {
    if v >= 0 {
        v as nat
    } else {
        (-v) as nat
    }
}

/// A positive or zero number of thousandths as a decimal number.
pub open spec fn unsigned_text(m: nat) -> Seq<char> {
    if m % 1000 == 0 {
        natural_text(m / 1000)
    } else {
        natural_text(m / 1000).push('.') + thousandths_text(m % 1000)
    }
}

/// A fixed-point value as the decimal number it stands for.
pub open spec fn value_text(v: i64) -> Seq<char> {
    if v < 0 {
        seq!['-'] + unsigned_text(size_of(v))
    } else {
        unsigned_text(size_of(v))
    }
}

/// The text of a step: what went in, an arrow, and what came out.
pub open spec fn step_text(step: PathStep) -> Seq<char> {
    match step {
        PathStep::SplitTwo { value, part } => value_text(value) + " -> ["@ + value_text(part)
            + ", "@ + value_text(part) + "]"@,
        PathStep::SplitThree { value, part } => value_text(value) + " -> ["@ + value_text(part)
            + ", "@ + value_text(part) + ", "@ + value_text(part) + "]"@,
        PathStep::CombineTwo { first, second, sum } => value_text(first) + " + "@ + value_text(
            second,
        ) + " -> "@ + value_text(sum),
        PathStep::CombineThree { first, second, third, sum } => value_text(first) + " + "@
            + value_text(second) + " + "@ + value_text(third) + " -> "@ + value_text(sum),
    }
}

fn digit_str(d: u64) -> (s: &'static str)
    requires
        d < 10,
    ensures
        s@ == seq![digit(d as int)],
{
    proof {
        reveal_strlit("0");
        reveal_strlit("1");
        reveal_strlit("2");
        reveal_strlit("3");
        reveal_strlit("4");
        reveal_strlit("5");
        reveal_strlit("6");
        reveal_strlit("7");
        reveal_strlit("8");
        reveal_strlit("9");
    }
    let s = if d == 0 {
        "0"
    } else if d == 1 {
        "1"
    } else if d == 2 {
        "2"
    } else if d == 3 {
        "3"
    } else if d == 4 {
        "4"
    } else if d == 5 {
        "5"
    } else if d == 6 {
        "6"
    } else if d == 7 {
        "7"
    } else if d == 8 {
        "8"
    } else {
        "9"
    };
    assert(s@ =~= seq![digit(d as int)]);
    s
}

fn push_natural(out: &mut String, n: u64)
    ensures
        final(out)@ == old(out)@ + natural_text(n as nat),
    decreases n,
{
    if n >= 10 {
        push_natural(out, n / 10);
    }
    out.append(digit_str(n % 10));
    assert(out@ =~= old(out)@ + natural_text(n as nat));
}

fn push_unsigned(out: &mut String, m: u64)
    ensures
        final(out)@ == old(out)@ + unsigned_text(m as nat),
{
    push_natural(out, m / 1000);
    let f = m % 1000;
    if f != 0 {
        proof {
            reveal_strlit(".");
        }
        out.append(".");
        out.append(digit_str(f / 100));
        if f % 100 != 0 {
            out.append(digit_str((f / 10) % 10));
            if f % 10 != 0 {
                out.append(digit_str(f % 10));
            }
        }
    }
    assert(out@ =~= old(out)@ + unsigned_text(m as nat));
}

fn push_value(out: &mut String, v: i64)
    ensures
        final(out)@ == old(out)@ + value_text(v),
{
    if v < 0 {
        proof {
            reveal_strlit("-");
        }
        out.append("-");
        push_unsigned(out, (-(v as i128)) as u64);
    } else {
        push_unsigned(out, v as u64);
    }
    assert(out@ =~= old(out)@ + value_text(v));
}

/// Writes a fixed-point value as the decimal number it stands for.
pub fn format_value(v: i64) -> (text: String)
    ensures
        text@ == value_text(v),
{
    let mut text = String::new();
    push_value(&mut text, v);
    assert(text@ =~= value_text(v));
    text
}

/// Writes a step as text.
pub fn describe(step: &PathStep) -> (text: String)
    ensures
        text@ == step_text(*step),
{
    let mut text = String::new();
    match *step {
        PathStep::SplitTwo { value, part } => {
            push_value(&mut text, value);
            text.append(" -> [");
            push_value(&mut text, part);
            text.append(", ");
            push_value(&mut text, part);
            text.append("]");
        },
        PathStep::SplitThree { value, part } => {
            push_value(&mut text, value);
            text.append(" -> [");
            push_value(&mut text, part);
            text.append(", ");
            push_value(&mut text, part);
            text.append(", ");
            push_value(&mut text, part);
            text.append("]");
        },
        PathStep::CombineTwo { first, second, sum } => {
            push_value(&mut text, first);
            text.append(" + ");
            push_value(&mut text, second);
            text.append(" -> ");
            push_value(&mut text, sum);
        },
        PathStep::CombineThree { first, second, third, sum } => {
            push_value(&mut text, first);
            text.append(" + ");
            push_value(&mut text, second);
            text.append(" + ");
            push_value(&mut text, third);
            text.append(" -> ");
            push_value(&mut text, sum);
        },
    }
    assert(text@ =~= step_text(*step));
    text
}

/// Writes each step of a path as text, in order.
pub fn describe_path(path: &Vec<PathStep>) -> (lines: Vec<String>)
    ensures
        lines@.len() == path@.len(),
        forall|i: int| 0 <= i < path@.len() ==> (#[trigger] lines@[i])@ == step_text(path@[i]),
{
    let mut lines: Vec<String> = Vec::new();
    let mut i: usize = 0;
    while i < path.len()
        invariant
            i <= path.len(),
            lines@.len() == i,
            forall|t: int| 0 <= t < i ==> (#[trigger] lines@[t])@ == step_text(path@[t]),
        decreases path.len() - i,
    {
        lines.push(describe(&path[i]));
        i = i + 1;
    }
    lines
}

} // verus!

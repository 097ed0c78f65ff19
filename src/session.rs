//! What the interactive menu reads and prints: commands, task positions
//! typed by the user, and the displayed form of a task.
use vstd::prelude::*;
use crate::task::{status_text, Task, TaskModel};
use crate::text::{chars_of, string_of, trim_chars, trimmed};

verus! {

/// The nine menu choices.
#[derive(Debug, Clone, Copy, PartialEq, Eq, Structural)]
pub enum Command {
    Add,
    ListAll,
    ListPending,
    ListCompleted,
    MarkCompleted,
    Search,
    Delete,
    ClearCompleted,
    Quit,
}

/// The command that a trimmed menu answer selects: one digit from 1 to 9.
pub open spec fn command_of(t: Seq<char>) -> Option<Command> {
    if t.len() != 1 {
        None
    } else if t[0] == '1' {
        Some(Command::Add)
    } else if t[0] == '2' {
        Some(Command::ListAll)
    } else if t[0] == '3' {
        Some(Command::ListPending)
    } else if t[0] == '4' {
        Some(Command::ListCompleted)
    } else if t[0] == '5' {
        Some(Command::MarkCompleted)
    } else if t[0] == '6' {
        Some(Command::Search)
    } else if t[0] == '7' {
        Some(Command::Delete)
    } else if t[0] == '8' {
        Some(Command::ClearCompleted)
    } else if t[0] == '9' {
        Some(Command::Quit)
    } else {
        None
    }
}

/// The command a menu answer selects, ignoring surrounding white space;
/// `None` for anything else.
pub fn parse_command(input: &str) -> (r: Option<Command>)
    ensures
        r == command_of(trimmed(input@)),
{
    let t = trim_chars(&chars_of(input));
    if t.len() != 1 {
        return None;
    }
    let c = t[0];
    if c == '1' {
        Some(Command::Add)
    } else if c == '2' {
        Some(Command::ListAll)
    } else if c == '3' {
        Some(Command::ListPending)
    } else if c == '4' {
        Some(Command::ListCompleted)
    } else if c == '5' {
        Some(Command::MarkCompleted)
    } else if c == '6' {
        Some(Command::Search)
    } else if c == '7' {
        Some(Command::Delete)
    } else if c == '8' {
        Some(Command::ClearCompleted)
    } else if c == '9' {
        Some(Command::Quit)
    } else {
        None
    }
}

/// An ASCII decimal digit.
pub open spec fn is_digit(c: char) -> bool {
    '0' <= c <= '9'
}

/// Every character is a decimal digit.
pub open spec fn all_digits(s: Seq<char>) -> bool {
    forall|i: int| 0 <= i < s.len() ==> is_digit(#[trigger] s[i])
}

/// The value of a string of decimal digits.
pub open spec fn digits_value(s: Seq<char>) -> nat
    decreases s.len(),
{
    if s.len() == 0 {
        0
    } else {
        10 * digits_value(s.drop_last()) + ((s.last() as u32) - ('0' as u32)) as nat
    }
}

/// The number a text names, read as an unsigned machine-sized integer: an
/// optional `+`, then one or more decimal digits, with a value that fits.
pub open spec fn number_of(t: Seq<char>) -> Option<nat> {
    let d = if t.len() > 0 && t[0] == '+' {
        t.skip(1)
    } else {
        t
    };
    if d.len() > 0 && all_digits(d) && digits_value(d) <= usize::MAX {
        Some(digits_value(d))
    } else {
        None
    }
}

proof fn lemma_digits_value_grows(s: Seq<char>, k: int)
    requires
        0 <= k <= s.len(),
        all_digits(s),
    ensures
        digits_value(s.take(k)) <= digits_value(s),
    decreases s.len(),
{
    if k < s.len() {
        let rest = s.drop_last();
        assert(all_digits(rest)) by {
            assert forall|i: int| 0 <= i < rest.len() implies is_digit(#[trigger] rest[i]) by {
                assert(rest[i] == s[i]);
            }
        }
        lemma_digits_value_grows(rest, k);
        assert(rest.take(k) =~= s.take(k));
    } else {
        assert(s.take(k) =~= s);
    }
}

/// Reads a number as `number_of` describes.
fn parse_number(t: &Vec<char>) -> (r: Option<usize>)
    ensures
        match r {
            Some(v) => number_of(t@) == Some(v as nat),
            None => number_of(t@) is None,
        },
{
    let n = t.len();
    let start: usize = if n > 0 && t[0] == '+' {
        1
    } else {
        0
    };
    let ghost d = if t@.len() > 0 && t@[0] == '+' {
        t@.skip(1)
    } else {
        t@
    };
    assert(d =~= t@.skip(start as int));
    if start == n {
        return None;
    }
    let mut v: usize = 0;
    let mut i: usize = start;
    assert(d.take(0) =~= Seq::<char>::empty());
    while i < n
        invariant
            start <= i <= n == t@.len(),
            d == t@.skip(start as int),
            d == (if t@.len() > 0 && t@[0] == '+' {
                t@.skip(1)
            } else {
                t@
            }),
            all_digits(d.take(i - start)),
            v as nat == digits_value(d.take(i - start)),
        decreases n - i,
    {
        let c = t[i];
        let k = i - start;
        assert(d[k as int] == c);
        if c < '0' || c > '9' {
            assert(!is_digit(d[k as int]));
            assert(!all_digits(d));
            return None;
        }
        let dv: usize = (c as u32 - '0' as u32) as usize;
        assert(d.take(k + 1).drop_last() =~= d.take(k as int));
        assert(d.take(k + 1).last() == c);
        assert(all_digits(d.take(k + 1))) by {
            assert forall|j: int| 0 <= j < k + 1 implies is_digit(#[trigger] d.take(k + 1)[j]) by {
                if j < k {
                    assert(d.take(k + 1)[j] == d.take(k as int)[j]);
                }
            }
        }
        if v > (usize::MAX - dv) / 10 {
            proof {
                assert(10 * v + dv > usize::MAX) by (nonlinear_arith)
                    requires
                        v > (usize::MAX - dv) / 10,
                        dv <= 9,
                ;
                assert(digits_value(d.take(k + 1)) > usize::MAX);
                if all_digits(d) {
                    lemma_digits_value_grows(d, k + 1);
                }
            }
            return None;
        }
        proof {
            assert(10 * v + dv <= usize::MAX) by (nonlinear_arith)
                requires
                    v <= (usize::MAX - dv) / 10,
                    dv <= 9,
            ;
        }
        v = 10 * v + dv;
        i = i + 1;
    }
    assert(d.take(i - start) =~= d);
    Some(v)
}

/// The task position a user typed, ignoring surrounding white space.
pub open spec fn position_of(input: Seq<char>) -> Option<nat> {
    number_of(trimmed(input))
}

/// Reads a task position typed by the user: surrounding white space is
/// ignored, and the rest must be an optional `+` and decimal digits whose
/// value fits in a `usize`. Whether the position names a task is for
/// `mark_completed` and `delete_task` to decide.
pub fn parse_position(input: &str) -> (r: Option<usize>)
    ensures
        match r {
            Some(v) => position_of(input@) == Some(v as nat),
            None => position_of(input@) is None,
        },
{
    parse_number(&trim_chars(&chars_of(input)))
}

/// The character of a decimal digit.
pub open spec fn digit_char(d: nat) -> char {
    seq!['0', '1', '2', '3', '4', '5', '6', '7', '8', '9'][d as int]
}

/// The decimal form of `n`, without leading zeros.
pub open spec fn decimal(n: nat) -> Seq<char>
    decreases n,
{
    if n < 10 {
        seq![digit_char(n)]
    } else {
        decimal(n / 10).push(digit_char(n % 10))
    }
}

fn digit_to_char(d: usize) -> (c: char)
    requires
        d < 10,
    ensures
        c == digit_char(d as nat),
{
    if d == 0 {
        '0'
    } else if d == 1 {
        '1'
    } else if d == 2 {
        '2'
    } else if d == 3 {
        '3'
    } else if d == 4 {
        '4'
    } else if d == 5 {
        '5'
    } else if d == 6 {
        '6'
    } else if d == 7 {
        '7'
    } else if d == 8 {
        '8'
    } else {
        '9'
    }
}

fn push_decimal(out: &mut Vec<char>, n: usize)
    ensures
        final(out)@ == old(out)@ + decimal(n as nat),
    decreases n,
{
    if n >= 10 {
        push_decimal(out, n / 10);
    }
    out.push(digit_to_char(n % 10));
    assert(final(out)@ =~= old(out)@ + decimal(n as nat));
}

/// How a task is shown at a 1-based position: `{position}. [{status}]
/// {description} ({date})`.
pub open spec fn display_line(position: nat, t: TaskModel) -> Seq<char> {
    decimal(position) + seq!['.', ' ', '['] + status_text(t.status) + seq![']', ' ']
        + t.description + seq![' ', '('] + t.date + seq![')']
}

/// The displayed form of a task at a 1-based position.
pub fn task_line(position: usize, task: &Task) -> (r: String)
    ensures
        r@ == display_line(position as nat, task@),
{
    let mut out: Vec<char> = Vec::new();
    push_decimal(&mut out, position);
    out.push('.');
    out.push(' ');
    out.push('[');
    let mut status = chars_of(task.status.as_str());
    out.append(&mut status);
    out.push(']');
    out.push(' ');
    let mut description = chars_of(task.description.as_str());
    out.append(&mut description);
    out.push(' ');
    out.push('(');
    let mut date = chars_of(task.date.as_str());
    out.append(&mut date);
    out.push(')');
    assert(out@ =~= display_line(position as nat, task@));
    string_of(&out)
}

} // verus!

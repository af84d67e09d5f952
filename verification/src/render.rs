//! Rendering of the task list for display: one line per task, carrying its
//! 1-based position, the four fields, and the completion flag.

use vstd::prelude::*;
use crate::codec::push_char;
use crate::task::{Task, TaskView};

verus! {

/// The decimal digit character for a value below ten.
pub open spec fn dec_digit(d: int) -> char {
    if d == 0 {
        '0'
    } else if d == 1 {
        '1'
    } else if d == 2 {
        '2'
    } else if d == 3 {
        '3'
    } else if d == 4 {
        '4'
    } else if d == 5 {
        '5'
    } else if d == 6 {
        '6'
    } else if d == 7 {
        '7'
    } else if d == 8 {
        '8'
    } else {
        '9'
    }
}

/// The decimal numeral of `n`, most significant digit first, no sign and
/// no leading zeros.
pub open spec fn dec_repr(n: nat) -> Seq<char>
    decreases n,
{
    if n < 10 {
        seq![dec_digit(n as int)]
    } else {
        dec_repr(n / 10) + seq![dec_digit((n % 10) as int)]
    }
}

/// The text a boolean displays as.
pub open spec fn bool_text(b: bool) -> Seq<char> {
    if b {
        seq!['t', 'r', 'u', 'e']
    } else {
        seq!['f', 'a', 'l', 's', 'e']
    }
}

/// The display line for the task at 1-based position `pos`: a tab, the
/// position and a dot, then name, due date and completion flag separated
/// by colons, and the description indented on the next line.
pub open spec fn render_line(pos: nat, t: TaskView) -> Seq<char> {
    seq!['\t'] + dec_repr(pos) + seq!['.', ' '] + t.name + seq![' ', ':', ' '] + t.due_date + seq![
        ' ',
        ':',
        ' ',
        'D',
        'o',
        'n',
        'e',
        ' ',
        '-',
        ' ',
    ] + bool_text(t.done) + seq!['\n', '\t'] + t.desc + seq!['\n']
}

fn dec_digit_char(d: usize) -> (c: char)
    requires
        d < 10,
    ensures
        c == dec_digit(d as int),
{
    if d == 0 {
        '0'
    } else if d == 1 {
        '1'
    } else if d == 2 {
        '2'
    } else if d == 3 {
        '3'
    } else if d == 4 {
        '4'
    } else if d == 5 {
        '5'
    } else if d == 6 {
        '6'
    } else if d == 7 {
        '7'
    } else if d == 8 {
        '8'
    } else {
        '9'
    }
}

/// Writes `n` in decimal.
pub fn render_usize(n: usize) -> (out: String)
    ensures
        out@ == dec_repr(n as nat),
    decreases n,
{
    if n < 10 {
        let mut out = String::new();
        push_char(&mut out, dec_digit_char(n));
        proof {
            assert(out@ =~= seq![dec_digit(n as int)]);
        }
        out
    } else {
        let mut out = render_usize(n / 10);
        push_char(&mut out, dec_digit_char(n % 10));
        proof {
            assert(out@ =~= dec_repr((n / 10) as nat) + seq![dec_digit((n % 10) as int)]);
        }
        out
    }
}

/// Builds the display line for the task at 1-based position `pos`.
pub fn render_task_line(pos: usize, t: &Task) -> (out: String)
    ensures
        out@ == render_line(pos as nat, t@),
{
    proof {
        reveal_strlit(". ");
        reveal_strlit(" : ");
        reveal_strlit(" : Done - ");
        reveal_strlit("true");
        reveal_strlit("false");
        reveal_strlit("\n\t");
    }
    let mut out = String::new();
    push_char(&mut out, '\t');
    let num = render_usize(pos);
    out.append(num.as_str());
    out.append(". ");
    out.append(t.name.as_str());
    out.append(" : ");
    out.append(t.due_date.as_str());
    out.append(" : Done - ");
    if t.done {
        out.append("true");
        proof {
            assert("true"@ =~= bool_text(true));
        }
    } else {
        out.append("false");
        proof {
            assert("false"@ =~= bool_text(false));
        }
    }
    out.append("\n\t");
    out.append(t.desc.as_str());
    push_char(&mut out, '\n');
    proof {
        assert(". "@ =~= seq!['.', ' ']);
        assert(" : "@ =~= seq![' ', ':', ' ']);
        assert(" : Done - "@ =~= seq![' ', ':', ' ', 'D', 'o', 'n', 'e', ' ', '-', ' ']);
        assert("\n\t"@ =~= seq!['\n', '\t']);
        assert(out@ =~= render_line(pos as nat, t@));
    }
    out
}

} // verus!

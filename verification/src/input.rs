//! Interpretation of user input lines: the menu dispatch and the 1-based
//! position entered for the complete/delete actions.

use vstd::prelude::*;

verus! {

/// What one menu line asks for.  Every line other than `"1"` through `"4"`
/// is the exit command, not an error.
#[derive(PartialEq, Eq, Structural, Clone, Copy, Debug)]
pub enum Command {
    ViewTasks,
    AddTask,
    CompleteTask,
    DeleteTask,
    Exit,
}

/// The menu dispatch as a function of the (already trimmed) input line.
pub open spec fn spec_command(s: Seq<char>) -> Command {
    if s == seq!['1'] {
        Command::ViewTasks
    } else if s == seq!['2'] {
        Command::AddTask
    } else if s == seq!['3'] {
        Command::CompleteTask
    } else if s == seq!['4'] {
        Command::DeleteTask
    } else {
        Command::Exit
    }
}

/// Maps a trimmed input line to the menu command it selects.
pub fn parse_command(line: &str) -> (c: Command)
    ensures
        c == spec_command(line@),
{
    let n = line.unicode_len();
    if n != 1 {
        proof {
            assert(line@ != seq!['1'] && line@ != seq!['2'] && line@ != seq!['3'] && line@
                != seq!['4']) by {
                assert(seq!['1'].len() == 1);
                assert(seq!['2'].len() == 1);
                assert(seq!['3'].len() == 1);
                assert(seq!['4'].len() == 1);
            }
        }
        return Command::Exit;
    }
    let ch = line.get_char(0);
    proof {
        assert(seq!['1'][0] == '1');
        assert(seq!['2'][0] == '2');
        assert(seq!['3'][0] == '3');
        assert(seq!['4'][0] == '4');
        if ch == '1' {
            assert(line@ =~= seq!['1']);
        }
        if ch == '2' {
            assert(line@ =~= seq!['2']);
        }
        if ch == '3' {
            assert(line@ =~= seq!['3']);
        }
        if ch == '4' {
            assert(line@ =~= seq!['4']);
        }
    }
    if ch == '1' {
        Command::ViewTasks
    } else if ch == '2' {
        Command::AddTask
    } else if ch == '3' {
        Command::CompleteTask
    } else if ch == '4' {
        Command::DeleteTask
    } else {
        Command::Exit
    }
}

/// Whitespace as `char::is_whitespace` defines it: the characters with the
/// Unicode `White_Space` property.
pub open spec fn line_ws(c: char) -> bool {
    c == ' ' || c == '\t' || c == '\n' || c == '\r' || c == '\u{000B}' || c == '\u{000C}' || c
        == '\u{0085}' || c == '\u{00A0}' || c == '\u{1680}' || (0x2000 <= c as u32 && c as u32
        <= 0x200A) || c == '\u{2028}' || c == '\u{2029}' || c == '\u{202F}' || c == '\u{205F}' || c
        == '\u{3000}'
}

/// The line without its leading whitespace.
pub open spec fn trim_front(s: Seq<char>) -> Seq<char>
    decreases s.len(),
{
    if s.len() > 0 && line_ws(s[0]) {
        trim_front(s.drop_first())
    } else {
        s
    }
}

/// The line without its trailing whitespace.
pub open spec fn trim_back(s: Seq<char>) -> Seq<char>
    decreases s.len(),
{
    if s.len() > 0 && line_ws(s.last()) {
        trim_back(s.drop_last())
    } else {
        s
    }
}

/// A line as it is interpreted: whitespace stripped from both ends.
pub open spec fn spec_trim(s: Seq<char>) -> Seq<char> {
    trim_back(trim_front(s))
}

fn line_ws_char(c: char) -> (b: bool)
    ensures
        b == line_ws(c),
{
    let v = c as u32;
    c == ' ' || c == '\t' || c == '\n' || c == '\r' || c == '\u{000B}' || c == '\u{000C}' || c
        == '\u{0085}' || c == '\u{00A0}' || c == '\u{1680}' || (0x2000 <= v && v <= 0x200A) || c
        == '\u{2028}' || c == '\u{2029}' || c == '\u{202F}' || c == '\u{205F}' || c == '\u{3000}'
}

/// Strips whitespace from both ends of a line before it is interpreted.
pub fn trim_line<'a>(s: &'a str) -> (r: &'a str)
    ensures
        r@ == spec_trim(s@),
{
    let n = s.unicode_len();
    let mut i: usize = 0;
    proof {
        assert(s@.skip(0) =~= s@);
    }
    while i < n && line_ws_char(s.get_char(i))
        invariant
            i <= n,
            n == s@.len(),
            trim_front(s@) == trim_front(s@.skip(i as int)),
        decreases n - i,
    {
        proof {
            assert(s@.skip(i as int)[0] == s@[i as int]);
            assert(s@.skip(i as int).drop_first() =~= s@.skip(i + 1));
        }
        i = i + 1;
    }
    let ghost front = s@.skip(i as int);
    proof {
        if i < n {
            assert(front[0] == s@[i as int]);
        }
        assert(trim_front(s@) == front);
    }
    let mut j: usize = n;
    proof {
        assert(front.take(n - i) =~= front);
    }
    while j > i && line_ws_char(s.get_char(j - 1))
        invariant
            i <= j <= n,
            n == s@.len(),
            front == s@.skip(i as int),
            trim_back(front) == trim_back(front.take(j - i)),
        decreases j,
    {
        proof {
            assert(front.take(j - i).last() == s@[j - 1]);
            assert(front.take(j - i).drop_last() =~= front.take(j - 1 - i));
        }
        j = j - 1;
    }
    proof {
        if j > i {
            assert(front.take(j - i).last() == s@[j - 1]);
        }
        assert(trim_back(front.take(j - i)) == front.take(j - i));
    }
    let r = s.substring_char(i, j);
    proof {
        assert(r@ =~= front.take(j - i));
    }
    r
}

/// A decimal digit.
pub open spec fn is_digit(c: char) -> bool {
    48 <= c as u32 && c as u32 <= 57
}

pub open spec fn all_digits(s: Seq<char>) -> bool {
    forall|i: int| 0 <= i < s.len() ==> is_digit(#[trigger] s[i])
}

/// The number a digit string denotes, most significant digit first.
pub open spec fn dec_val(s: Seq<char>) -> int
    decreases s.len(),
{
    if s.len() == 0 {
        0
    } else {
        dec_val(s.drop_last()) * 10 + (s.last() as u32 - 48)
    }
}

/// The grammar of an unsigned decimal number: an optional leading `+`, then
/// one or more digits, with a value that fits in `usize`.
pub open spec fn spec_parse_usize(s: Seq<char>) -> Option<int> {
    let body = if s.len() > 0 && s[0] == '+' {
        s.drop_first()
    } else {
        s
    };
    if body.len() > 0 && all_digits(body) && dec_val(body) <= usize::MAX {
        Some(dec_val(body))
    } else {
        None
    }
}

/// A line selects a task of a store of length `len` when it denotes a
/// number `v` with `1 <= v <= len`; the selected 0-based index is `v - 1`.
/// Non-numeric lines, zero and out-of-range numbers select nothing.
pub open spec fn spec_select_index(s: Seq<char>, len: nat) -> Option<int> {
    match spec_parse_usize(s) {
        Some(v) => if 1 <= v && v <= len {
            Some(v - 1)
        } else {
            None
        },
        None => None,
    }
}

proof fn lemma_dec_val_nonneg(s: Seq<char>)
    requires
        all_digits(s),
    ensures
        dec_val(s) >= 0,
    decreases s.len(),
{
    if s.len() > 0 {
        assert(all_digits(s.drop_last()));
        lemma_dec_val_nonneg(s.drop_last());
    }
}

/// A digit string is worth at least any of its prefixes.
proof fn lemma_dec_val_extend_ge(s: Seq<char>, k: int)
    requires
        all_digits(s),
        0 <= k <= s.len(),
    ensures
        dec_val(s) >= dec_val(s.take(k)),
    decreases s.len() - k,
{
    if k == s.len() {
        assert(s.take(k) =~= s);
    } else {
        lemma_dec_val_extend_ge(s, k + 1);
        assert(s.take(k + 1).drop_last() =~= s.take(k));
        assert(all_digits(s.take(k)));
        lemma_dec_val_nonneg(s.take(k));
        assert(dec_val(s.take(k + 1)) == dec_val(s.take(k)) * 10 + (s[k] as u32 - 48));
        assert(dec_val(s.take(k + 1)) >= dec_val(s.take(k)));
    }
}

/// Reads a trimmed input line as a 1-based task position against a store of
/// `len` tasks and converts it to a 0-based index; yields nothing on
/// non-numeric input, zero, or an out-of-range position, exactly as
/// `spec_select_index` says.
pub fn select_index(line: &str, len: usize) -> (r: Option<usize>)
    ensures
        match r {
            Some(i) => spec_select_index(line@, len as nat) == Some(i as int),
            None => spec_select_index(line@, len as nat) is None,
        },
{
    let n = line.unicode_len();
    let mut start: usize = 0;
    if n > 0 && line.get_char(0) == '+' {
        start = 1;
    }
    let ghost body = if line@.len() > 0 && line@[0] == '+' {
        line@.drop_first()
    } else {
        line@
    };
    proof {
        assert(body =~= line@.skip(start as int));
    }
    if start == n {
        return None;
    }
    let mut acc: usize = 0;
    let mut i: usize = start;
    while i < n
        invariant
            start <= i <= n,
            n == line@.len(),
            start <= 1,
            body == line@.skip(start as int),
            body == (if line@.len() > 0 && line@[0] == '+' {
                line@.drop_first()
            } else {
                line@
            }),
            all_digits(body.take(i - start)),
            acc == dec_val(body.take(i - start)),
        decreases n - i,
    {
        let c = line.get_char(i);
        let d32 = c as u32;
        proof {
            assert(body[i - start] == line@[i as int]);
        }
        if d32 < 48 || d32 > 57 {
            proof {
                assert(!is_digit(body[i - start]));
                assert(!all_digits(body));
            }
            return None;
        }
        let d = (d32 - 48) as usize;
        proof {
            assert(body.take(i - start + 1).drop_last() =~= body.take(i - start));
            assert(body.take(i - start + 1).last() == body[i - start]);
            assert(dec_val(body.take(i - start + 1)) == acc * 10 + d);
        }
        if acc > (usize::MAX - d) / 10 {
            proof {
                assert(acc * 10 + d > usize::MAX) by {
                    assert(acc >= (usize::MAX - d) / 10 + 1);
                    assert(((usize::MAX - d) / 10 + 1) * 10 == ((usize::MAX - d) / 10) * 10 + 10);
                    assert(((usize::MAX - d) / 10) * 10 + 10 > usize::MAX - d) by (nonlinear_arith);
                    assert(acc * 10 >= ((usize::MAX - d) / 10 + 1) * 10) by (nonlinear_arith)
                        requires
                            acc >= (usize::MAX - d) / 10 + 1,
                    ;
                };
                if all_digits(body) {
                    lemma_dec_val_extend_ge(body, i - start + 1);
                    assert(dec_val(body) > usize::MAX);
                }
            }
            return None;
        }
        acc = acc * 10 + d;
        i = i + 1;
    }
    proof {
        assert(body.take(i - start) =~= body);
        assert(body.len() > 0);
    }
    if acc >= 1 && acc <= len {
        Some(acc - 1)
    } else {
        None
    }
}

} // verus!

//! Persistence format: the task list as one JSON document, an array of
//! objects with the four fields `name`, `desc`, `due_date` and `done`.
//!
//! `ser_tasks` is the mathematical definition of the saved document and
//! `spec_parse_tasks` the mathematical definition of what a document means;
//! `save_tasks` and `load_tasks` are the executable pair, and
//! `lemma_save_load_round_trip` proves that parsing a saved document gives
//! back exactly the tasks that were saved.

use vstd::prelude::*;
use crate::task::{Task, TaskView};

verus! {

// ---------------------------------------------------------------------------
// The serialized form, as specification-level sequences of characters.
// ---------------------------------------------------------------------------

pub open spec fn key_name() -> Seq<char> {
    seq!['"', 'n', 'a', 'm', 'e', '"']
}

pub open spec fn key_desc() -> Seq<char> {
    seq!['"', 'd', 'e', 's', 'c', '"']
}

pub open spec fn key_due_date() -> Seq<char> {
    seq!['"', 'd', 'u', 'e', '_', 'd', 'a', 't', 'e', '"']
}

pub open spec fn key_done() -> Seq<char> {
    seq!['"', 'd', 'o', 'n', 'e', '"']
}

pub open spec fn lit_true() -> Seq<char> {
    seq!['t', 'r', 'u', 'e']
}

pub open spec fn lit_false() -> Seq<char> {
    seq!['f', 'a', 'l', 's', 'e']
}

/// The lower-case hexadecimal digit for a value below 16.
pub open spec fn hex_digit(d: int) -> char {
    if d == 0 {
        '0'
    } else if d == 1 {
        '1'
    } else if d == 2 {
        '2'
    } else if d == 3 {
        '3'
    } else if d == 4 {
        '4'
    } else if d == 5 {
        '5'
    } else if d == 6 {
        '6'
    } else if d == 7 {
        '7'
    } else if d == 8 {
        '8'
    } else if d == 9 {
        '9'
    } else if d == 10 {
        'a'
    } else if d == 11 {
        'b'
    } else if d == 12 {
        'c'
    } else if d == 13 {
        'd'
    } else if d == 14 {
        'e'
    } else {
        'f'
    }
}

/// How one character is written inside a JSON string: quotes and
/// backslashes get a backslash escape, control characters a `\u00XX`
/// escape, and everything else stands for itself.
pub open spec fn esc_char(c: char) -> Seq<char> {
    if c == '"' {
        seq!['\\', '"']
    } else if c == '\\' {
        seq!['\\', '\\']
    } else if (c as u32) < 32 {
        seq!['\\', 'u', '0', '0', hex_digit(c as u32 as int / 16), hex_digit(c as u32 as int % 16)]
    } else {
        seq![c]
    }
}

/// A text field's characters, each escaped as JSON requires.
pub open spec fn esc_str(s: Seq<char>) -> Seq<char>
    decreases s.len(),
{
    if s.len() == 0 {
        Seq::empty()
    } else {
        esc_char(s[0]) + esc_str(s.drop_first())
    }
}

/// A JSON string literal: the escaped text between double quotes.
pub open spec fn ser_string(s: Seq<char>) -> Seq<char> {
    seq!['"'] + esc_str(s) + seq!['"']
}

pub open spec fn ser_bool(b: bool) -> Seq<char> {
    if b {
        lit_true()
    } else {
        lit_false()
    }
}

/// One task as a JSON object with its four fields in a fixed order.
pub open spec fn ser_task(t: TaskView) -> Seq<char> {
    seq!['{'] + key_name() + seq![':'] + ser_string(t.name) + seq![','] + key_desc() + seq![':']
        + ser_string(t.desc) + seq![','] + key_due_date() + seq![':'] + ser_string(t.due_date)
        + seq![','] + key_done() + seq![':'] + ser_bool(t.done) + seq!['}']
}

/// The comma-separated object list inside the array brackets.
pub open spec fn ser_items(ts: Seq<TaskView>) -> Seq<char>
    decreases ts.len(),
{
    if ts.len() == 0 {
        Seq::empty()
    } else if ts.len() == 1 {
        ser_task(ts[0])
    } else {
        ser_task(ts[0]) + seq![','] + ser_items(ts.drop_first())
    }
}

/// The whole saved document: a JSON array of the tasks in store order.
pub open spec fn ser_tasks(ts: Seq<TaskView>) -> Seq<char> {
    seq!['['] + ser_items(ts) + seq![']']
}

// ---------------------------------------------------------------------------
// Trusted bridges to std for building and probing strings.
// ---------------------------------------------------------------------------

/// Relies on String::push: appends the given character to the end of the
/// string.
#[verifier::external_body]
pub(crate) fn push_char(s: &mut String, c: char)
    ensures
        final(s)@ == old(s)@.push(c),
{
    s.push(c);
}

/// Relies on char::from_u32: yields the character with the given code point
/// exactly when the value is a Unicode scalar value (not a surrogate, not
/// above the maximum code point).
#[verifier::external_body]
fn char_from_u32(v: u32) -> (r: Option<char>)
    ensures
        r == if v < 0xD800 || (0xE000 <= v && v <= 0x10FFFF) {
            Some(v as char)
        } else {
            None::<char>
        },
{
    char::from_u32(v)
}

// ---------------------------------------------------------------------------
// The executable serializer.
// ---------------------------------------------------------------------------

/// The lower-case hexadecimal digit character for a value below 16.
fn hex_digit_char(d: u32) -> (c: char)
    requires
        d < 16,
    ensures
        c == hex_digit(d as int),
{
    if d == 0 {
        '0'
    } else if d == 1 {
        '1'
    } else if d == 2 {
        '2'
    } else if d == 3 {
        '3'
    } else if d == 4 {
        '4'
    } else if d == 5 {
        '5'
    } else if d == 6 {
        '6'
    } else if d == 7 {
        '7'
    } else if d == 8 {
        '8'
    } else if d == 9 {
        '9'
    } else if d == 10 {
        'a'
    } else if d == 11 {
        'b'
    } else if d == 12 {
        'c'
    } else if d == 13 {
        'd'
    } else if d == 14 {
        'e'
    } else {
        'f'
    }
}

/// Extending the text by one character extends its escaped form by that
/// character's escape.
proof fn lemma_esc_str_snoc(s: Seq<char>, c: char)
    ensures
        esc_str(s.push(c)) == esc_str(s) + esc_char(c),
    decreases s.len(),
{
    if s.len() == 0 {
        assert(s.push(c)[0] == c);
        assert(s.push(c).drop_first() =~= Seq::<char>::empty());
        assert(esc_str(Seq::<char>::empty()) == Seq::<char>::empty());
        assert(esc_str(s.push(c)) == esc_char(c) + esc_str(Seq::<char>::empty()));
        assert(esc_str(s.push(c)) =~= esc_char(c));
        assert(esc_str(s) + esc_char(c) =~= esc_char(c));
    } else {
        lemma_esc_str_snoc(s.drop_first(), c);
        assert(s.push(c).drop_first() =~= s.drop_first().push(c));
        assert(s.push(c)[0] == s[0]);
        assert(esc_str(s.push(c)) == esc_char(s[0]) + (esc_str(s.drop_first()) + esc_char(c)));
        assert(esc_char(s[0]) + (esc_str(s.drop_first()) + esc_char(c)) =~= (esc_char(s[0])
            + esc_str(s.drop_first())) + esc_char(c));
    }
}

/// Appends the JSON-escaped form of `s` to `out`.
fn append_escaped(out: &mut String, s: &str)
    ensures
        final(out)@ == old(out)@ + esc_str(s@),
{
    let n = s.unicode_len();
    let mut i: usize = 0;
    proof {
        assert(s@.take(0) =~= Seq::<char>::empty());
        assert(out@ + esc_str(s@.take(0)) =~= out@);
    }
    while i < n
        invariant
            i <= n,
            n == s@.len(),
            out@ == old(out)@ + esc_str(s@.take(i as int)),
        decreases n - i,
    {
        let c = s.get_char(i);
        let ghost pre = out@;
        proof {
            lemma_esc_str_snoc(s@.take(i as int), c);
            assert(s@.take(i as int).push(c) =~= s@.take(i + 1));
        }
        if c == '"' {
            push_char(out, '\\');
            push_char(out, '"');
            proof {
                assert(out@ =~= pre + esc_char(c));
            }
        } else if c == '\\' {
            push_char(out, '\\');
            push_char(out, '\\');
            proof {
                assert(out@ =~= pre + esc_char(c));
            }
        } else if (c as u32) < 32 {
            let v = c as u32;
            push_char(out, '\\');
            push_char(out, 'u');
            push_char(out, '0');
            push_char(out, '0');
            push_char(out, hex_digit_char(v / 16));
            push_char(out, hex_digit_char(v % 16));
            proof {
                assert(out@ =~= pre + esc_char(c));
            }
        } else {
            push_char(out, c);
            proof {
                assert(out@ =~= pre + esc_char(c));
            }
        }
        proof {
            assert(out@ =~= old(out)@ + esc_str(s@.take(i + 1)));
        }
        i = i + 1;
    }
    proof {
        assert(s@.take(n as int) =~= s@);
    }
}

/// Appends the JSON string literal for `s` to `out`.
fn append_string(out: &mut String, s: &str)
    ensures
        final(out)@ == old(out)@ + ser_string(s@),
{
    push_char(out, '"');
    append_escaped(out, s);
    push_char(out, '"');
    proof {
        assert(out@ =~= old(out)@ + (seq!['"'] + esc_str(s@) + seq!['"']));
    }
}

/// Appends the JSON object for one task to `out`.
fn append_task(out: &mut String, t: &Task)
    ensures
        final(out)@ == old(out)@ + ser_task(t@),
{
    proof {
        reveal_strlit("{\"name\":");
        reveal_strlit(",\"desc\":");
        reveal_strlit(",\"due_date\":");
        reveal_strlit(",\"done\":");
        reveal_strlit("true");
        reveal_strlit("false");
    }
    out.append("{\"name\":");
    proof {
        assert("{\"name\":"@ =~= seq!['{'] + key_name() + seq![':']);
    }
    append_string(out, t.name.as_str());
    out.append(",\"desc\":");
    proof {
        assert(",\"desc\":"@ =~= seq![','] + key_desc() + seq![':']);
    }
    append_string(out, t.desc.as_str());
    out.append(",\"due_date\":");
    proof {
        assert(",\"due_date\":"@ =~= seq![','] + key_due_date() + seq![':']);
    }
    append_string(out, t.due_date.as_str());
    out.append(",\"done\":");
    proof {
        assert(",\"done\":"@ =~= seq![','] + key_done() + seq![':']);
    }
    if t.done {
        out.append("true");
        proof {
            assert("true"@ =~= lit_true());
        }
    } else {
        out.append("false");
        proof {
            assert("false"@ =~= lit_false());
        }
    }
    push_char(out, '}');
    proof {
        assert(out@ =~= old(out)@ + ser_task(t@));
    }
}

/// Appending one more task to the object list puts it at the end, after a
/// comma when the list was not empty.
proof fn lemma_ser_items_snoc(ts: Seq<TaskView>, t: TaskView)
    ensures
        ts.len() == 0 ==> ser_items(ts.push(t)) == ser_task(t),
        ts.len() > 0 ==> ser_items(ts.push(t)) == ser_items(ts) + seq![','] + ser_task(t),
    decreases ts.len(),
{
    let p = ts.push(t);
    if ts.len() == 0 {
        assert(p.len() == 1);
        assert(p[0] == t);
    } else {
        lemma_ser_items_snoc(ts.drop_first(), t);
        assert(p.drop_first() =~= ts.drop_first().push(t));
        assert(p[0] == ts[0]);
        assert(p.len() == ts.len() + 1);
        if ts.len() == 1 {
            assert(ser_items(p) == ser_task(ts[0]) + seq![','] + ser_items(p.drop_first()));
            assert(ser_items(p.drop_first()) == ser_task(t));
            assert(ser_items(ts) == ser_task(ts[0]));
        } else {
            assert(ser_items(p) == ser_task(ts[0]) + seq![','] + ser_items(p.drop_first()));
            assert(ser_items(p.drop_first()) == ser_items(ts.drop_first()) + seq![','] + ser_task(
                t,
            ));
            assert(ser_task(ts[0]) + seq![','] + (ser_items(ts.drop_first()) + seq![','] + ser_task(
                t,
            )) =~= (ser_task(ts[0]) + seq![','] + ser_items(ts.drop_first())) + seq![','] + ser_task(
                t,
            ));
        }
    }
}

/// Serializes the whole store into one JSON document, fully in memory.
pub fn save_tasks(tasks: &Vec<Task>) -> (out: String)
    ensures
        out@ == ser_tasks(tasks.deep_view()),
{
    let ghost all = tasks.deep_view();
    let mut out = String::new();
    push_char(&mut out, '[');
    let mut i: usize = 0;
    proof {
        assert(all.take(0) =~= Seq::<TaskView>::empty());
        assert(out@ =~= seq!['['] + ser_items(all.take(0)));
    }
    while i < tasks.len()
        invariant
            i <= tasks@.len(),
            all == tasks.deep_view(),
            all.len() == tasks@.len(),
            out@ == seq!['['] + ser_items(all.take(i as int)),
        decreases tasks@.len() - i,
    {
        let ghost pre = out@;
        if i > 0 {
            push_char(&mut out, ',');
        }
        append_task(&mut out, &tasks[i]);
        proof {
            lemma_ser_items_snoc(all.take(i as int), all[i as int]);
            assert(all.take(i as int).push(all[i as int]) =~= all.take(i + 1));
            if i > 0 {
                assert(out@ =~= pre + seq![','] + ser_task(all[i as int]));
                assert(out@ =~= seq!['['] + ser_items(all.take(i + 1)));
            } else {
                assert(all.take(0) =~= Seq::<TaskView>::empty());
                assert(out@ =~= seq!['['] + ser_items(all.take(i + 1)));
            }
        }
        i = i + 1;
    }
    push_char(&mut out, ']');
    proof {
        assert(all.take(tasks@.len() as int) =~= all);
        assert(out@ =~= seq!['['] + ser_items(all) + seq![']']);
    }
    out
}

// ---------------------------------------------------------------------------
// The meaning of a document, as a specification-level parser.  Each piece
// consumes a prefix of the remaining characters and yields the value read
// together with what is left.
// ---------------------------------------------------------------------------

/// JSON insignificant whitespace.
pub open spec fn json_ws(c: char) -> bool {
    c == ' ' || c == '\n' || c == '\r' || c == '\t'
}

/// The remainder after any leading whitespace.
pub open spec fn skip_ws(s: Seq<char>) -> Seq<char>
    decreases s.len(),
{
    if s.len() > 0 && json_ws(s[0]) {
        skip_ws(s.drop_first())
    } else {
        s
    }
}

/// Consumes an exact literal, or fails.
pub open spec fn match_lit(s: Seq<char>, lit: Seq<char>) -> Option<Seq<char>> {
    if lit.len() <= s.len() && s.take(lit.len() as int) == lit {
        Some(s.skip(lit.len() as int))
    } else {
        None
    }
}

/// The character a single-letter escape stands for.
pub open spec fn short_escape(e: char) -> Option<char> {
    if e == '"' {
        Some('"')
    } else if e == '\\' {
        Some('\\')
    } else if e == '/' {
        Some('/')
    } else if e == 'b' {
        Some('\u{0008}')
    } else if e == 'f' {
        Some('\u{000C}')
    } else if e == 'n' {
        Some('\n')
    } else if e == 'r' {
        Some('\r')
    } else if e == 't' {
        Some('\t')
    } else {
        None
    }
}

/// The value of one hexadecimal digit, either case.
pub open spec fn hex_val(c: char) -> Option<int> {
    if 48 <= c as u32 && c as u32 <= 57 {
        Some(c as u32 - 48)
    } else if 97 <= c as u32 && c as u32 <= 102 {
        Some(c as u32 - 87)
    } else if 65 <= c as u32 && c as u32 <= 70 {
        Some(c as u32 - 55)
    } else {
        None
    }
}

/// The value of the four hexadecimal digits of a `\u` escape.
pub open spec fn hex4_val(s: Seq<char>) -> Option<int> {
    if s.len() == 4 && hex_val(s[0]) is Some && hex_val(s[1]) is Some && hex_val(s[2]) is Some
        && hex_val(s[3]) is Some {
        Some(
            hex_val(s[0])->0 * 4096 + hex_val(s[1])->0 * 256 + hex_val(s[2])->0 * 16 + hex_val(
                s[3],
            )->0,
        )
    } else {
        None
    }
}

/// A code point that is a Unicode scalar value, hence a `char`.
pub open spec fn valid_scalar(v: int) -> bool {
    (0 <= v < 0xD800) || (0xE000 <= v <= 0x10FFFF)
}

/// The inside of a JSON string, after the opening quote: the text it
/// denotes and the remainder after the closing quote.  Raw control
/// characters, bad escapes and surrogate code points fail.
pub open spec fn parse_str_body(s: Seq<char>) -> Option<(Seq<char>, Seq<char>)>
    decreases s.len(),
{
    if s.len() == 0 {
        None
    } else if s[0] == '"' {
        Some((Seq::empty(), s.drop_first()))
    } else if s[0] == '\\' {
        if s.len() < 2 {
            None
        } else if s[1] == 'u' {
            if s.len() < 6 {
                None
            } else {
                match hex4_val(s.subrange(2, 6)) {
                    Some(v) => if valid_scalar(v) {
                        match parse_str_body(s.skip(6)) {
                            Some(p) => Some((seq![v as char] + p.0, p.1)),
                            None => None,
                        }
                    } else {
                        None
                    },
                    None => None,
                }
            }
        } else {
            match short_escape(s[1]) {
                Some(c) => match parse_str_body(s.skip(2)) {
                    Some(p) => Some((seq![c] + p.0, p.1)),
                    None => None,
                },
                None => None,
            }
        }
    } else if (s[0] as u32) < 32 {
        None
    } else {
        match parse_str_body(s.drop_first()) {
            Some(p) => Some((seq![s[0]] + p.0, p.1)),
            None => None,
        }
    }
}

/// A JSON string literal, opening quote included.
pub open spec fn parse_string(s: Seq<char>) -> Option<(Seq<char>, Seq<char>)> {
    if s.len() > 0 && s[0] == '"' {
        parse_str_body(s.drop_first())
    } else {
        None
    }
}

/// A JSON boolean.
pub open spec fn parse_bool(s: Seq<char>) -> Option<(bool, Seq<char>)> {
    match match_lit(s, lit_true()) {
        Some(r) => Some((true, r)),
        None => match match_lit(s, lit_false()) {
            Some(r) => Some((false, r)),
            None => None,
        },
    }
}

/// One `"key": "string"` member of an object, whitespace allowed around
/// the punctuation.
pub open spec fn parse_field(s: Seq<char>, key: Seq<char>) -> Option<(Seq<char>, Seq<char>)> {
    match match_lit(skip_ws(s), key) {
        None => None,
        Some(s1) => match match_lit(skip_ws(s1), seq![':']) {
            None => None,
            Some(s2) => parse_string(skip_ws(s2)),
        },
    }
}

/// One task object: the four fields in their fixed order, whitespace
/// allowed around the punctuation.
pub open spec fn parse_task(s: Seq<char>) -> Option<(TaskView, Seq<char>)> {
    match match_lit(s, seq!['{']) {
        None => None,
        Some(s1) => match parse_field(s1, key_name()) {
            None => None,
            Some((name, s2)) => match match_lit(skip_ws(s2), seq![',']) {
                None => None,
                Some(s3) => match parse_field(s3, key_desc()) {
                    None => None,
                    Some((desc, s4)) => match match_lit(skip_ws(s4), seq![',']) {
                        None => None,
                        Some(s5) => match parse_field(s5, key_due_date()) {
                            None => None,
                            Some((due_date, s6)) => match match_lit(skip_ws(s6), seq![',']) {
                                None => None,
                                Some(s7) => match match_lit(skip_ws(s7), key_done()) {
                                    None => None,
                                    Some(s8) => match match_lit(skip_ws(s8), seq![':']) {
                                        None => None,
                                        Some(s9) => match parse_bool(skip_ws(s9)) {
                                            None => None,
                                            Some((done, s10)) => match match_lit(
                                                skip_ws(s10),
                                                seq!['}'],
                                            ) {
                                                None => None,
                                                Some(rest) => Some(
                                                    (TaskView { name, desc, due_date, done }, rest),
                                                ),
                                            },
                                        },
                                    },
                                },
                            },
                        },
                    },
                },
            },
        },
    }
}

/// Skipping whitespace never lengthens the remainder.
proof fn lemma_skip_ws_len(s: Seq<char>)
    ensures
        skip_ws(s).len() <= s.len(),
    decreases s.len(),
{
    if s.len() > 0 && json_ws(s[0]) {
        lemma_skip_ws_len(s.drop_first());
    }
}

/// A string body always consumes at least its closing quote.
proof fn lemma_parse_str_body_consumes(s: Seq<char>)
    ensures
        parse_str_body(s) matches Some(p) ==> p.1.len() < s.len(),
    decreases s.len(),
{
    if s.len() == 0 {
    } else if s[0] == '"' {
    } else if s[0] == '\\' {
        if s.len() >= 6 {
            lemma_parse_str_body_consumes(s.skip(6));
        }
        if s.len() >= 2 {
            lemma_parse_str_body_consumes(s.skip(2));
        }
    } else {
        lemma_parse_str_body_consumes(s.drop_first());
    }
}

/// A parsed field consumes at least one character.
proof fn lemma_parse_field_consumes(s: Seq<char>, key: Seq<char>)
    ensures
        parse_field(s, key) matches Some(p) ==> p.1.len() < s.len(),
{
    if parse_field(s, key) is Some {
        let s1 = match_lit(skip_ws(s), key)->0;
        lemma_skip_ws_len(s);
        assert(s1.len() <= s.len());
        let s2 = match_lit(skip_ws(s1), seq![':'])->0;
        lemma_skip_ws_len(s1);
        assert(s2.len() < s.len());
        lemma_skip_ws_len(s2);
        lemma_parse_str_body_consumes(skip_ws(s2).drop_first());
    }
}

/// A parsed task consumes at least one character.
proof fn lemma_parse_task_consumes(s: Seq<char>)
    ensures
        parse_task(s) matches Some(p) ==> p.1.len() < s.len(),
{
    if parse_task(s) is Some {
        let s1 = match_lit(s, seq!['{'])->0;
        assert(s1.len() < s.len());
        lemma_parse_field_consumes(s1, key_name());
        let s2 = (parse_field(s1, key_name())->0).1;
        let s3 = match_lit(skip_ws(s2), seq![','])->0;
        lemma_skip_ws_len(s2);
        assert(s3.len() < s.len());
        lemma_parse_field_consumes(s3, key_desc());
        let s4 = (parse_field(s3, key_desc())->0).1;
        let s5 = match_lit(skip_ws(s4), seq![','])->0;
        lemma_skip_ws_len(s4);
        assert(s5.len() < s.len());
        lemma_parse_field_consumes(s5, key_due_date());
        let s6 = (parse_field(s5, key_due_date())->0).1;
        let s7 = match_lit(skip_ws(s6), seq![','])->0;
        lemma_skip_ws_len(s6);
        assert(s7.len() < s.len());
        let s8 = match_lit(skip_ws(s7), key_done())->0;
        lemma_skip_ws_len(s7);
        assert(s8.len() < s.len());
        let s9 = match_lit(skip_ws(s8), seq![':'])->0;
        lemma_skip_ws_len(s8);
        assert(s9.len() < s.len());
        let s10 = (parse_bool(skip_ws(s9))->0).1;
        lemma_skip_ws_len(s9);
        assert(s10.len() < s.len());
        lemma_skip_ws_len(s10);
        assert((parse_task(s)->0).1.len() < s.len());
    }
}

/// The object list after the opening bracket: one task, then either a comma
/// and more tasks or the closing bracket.
pub open spec fn parse_items(s: Seq<char>) -> Option<(Seq<TaskView>, Seq<char>)>
    decreases s.len(),
    via parse_items_dec
{
    match parse_task(s) {
        None => None,
        Some((t, r)) => {
            let r1 = skip_ws(r);
            if r1.len() > 0 && r1[0] == ',' {
                match parse_items(skip_ws(r1.drop_first())) {
                    Some((ts, rest)) => Some((seq![t] + ts, rest)),
                    None => None,
                }
            } else if r1.len() > 0 && r1[0] == ']' {
                Some((seq![t], r1.drop_first()))
            } else {
                None
            }
        },
    }
}

#[via_fn]
proof fn parse_items_dec(s: Seq<char>) {
    lemma_parse_task_consumes(s);
    if parse_task(s) is Some {
        let r = (parse_task(s)->0).1;
        lemma_skip_ws_len(r);
        let r1 = skip_ws(r);
        if r1.len() > 0 && r1[0] == ',' {
            lemma_skip_ws_len(r1.drop_first());
        }
    }
}

/// The whole document: optional whitespace, a JSON array of task objects,
/// optional whitespace, end of input.
pub open spec fn spec_parse_tasks(s: Seq<char>) -> Option<Seq<TaskView>> {
    match match_lit(skip_ws(s), seq!['[']) {
        None => None,
        Some(s1) => {
            let s2 = skip_ws(s1);
            if s2.len() > 0 && s2[0] == ']' {
                if skip_ws(s2.drop_first()).len() == 0 {
                    Some(Seq::empty())
                } else {
                    None
                }
            } else {
                match parse_items(s2) {
                    Some((ts, rest)) => if skip_ws(rest).len() == 0 {
                        Some(ts)
                    } else {
                        None
                    },
                    None => None,
                }
            }
        },
    }
}

// ---------------------------------------------------------------------------
// The executable parser, each piece proved to agree with its specification.
// ---------------------------------------------------------------------------

fn ws_char(c: char) -> (b: bool)
    ensures
        b == json_ws(c),
{
    c == ' ' || c == '\n' || c == '\r' || c == '\t'
}

/// Returns the input without its leading whitespace.
fn p_skip_ws<'a>(s: &'a str) -> (r: &'a str)
    ensures
        r@ == skip_ws(s@),
{
    let n = s.unicode_len();
    let mut i: usize = 0;
    proof {
        assert(s@.skip(0) =~= s@);
    }
    while i < n && ws_char(s.get_char(i))
        invariant
            i <= n,
            n == s@.len(),
            skip_ws(s@) == skip_ws(s@.skip(i as int)),
        decreases n - i,
    {
        proof {
            assert(s@.skip(i as int)[0] == s@[i as int]);
            assert(s@.skip(i as int).drop_first() =~= s@.skip(i + 1));
        }
        i = i + 1;
    }
    proof {
        if i < n {
            assert(s@.skip(i as int)[0] == s@[i as int]);
            assert(skip_ws(s@.skip(i as int)) == s@.skip(i as int));
        } else {
            assert(s@.skip(i as int) =~= Seq::<char>::empty());
        }
    }
    let r = s.substring_char(i, n);
    proof {
        assert(r@ =~= s@.skip(i as int));
    }
    r
}

/// Consumes the exact literal `lit` from the front of `s`, or fails.
fn p_lit<'a>(s: &'a str, lit: &str) -> (r: Option<&'a str>)
    ensures
        match r {
            Some(rest) => match_lit(s@, lit@) == Some(rest@),
            None => match_lit(s@, lit@) is None,
        },
{
    let n = s.unicode_len();
    let m = lit.unicode_len();
    if m > n {
        return None;
    }
    let mut k: usize = 0;
    while k < m
        invariant
            k <= m,
            m == lit@.len(),
            n == s@.len(),
            m <= n,
            forall|j: int| 0 <= j < k ==> s@[j] == lit@[j],
        decreases m - k,
    {
        let a = s.get_char(k);
        let b = lit.get_char(k);
        if a != b {
            proof {
                assert(s@.take(m as int)[k as int] != lit@[k as int]);
            }
            return None;
        }
        k = k + 1;
    }
    let rest = s.substring_char(m, n);
    proof {
        assert(s@.take(m as int) =~= lit@);
        assert(rest@ =~= s@.skip(m as int));
    }
    Some(rest)
}

fn hex_val_char(c: char) -> (r: Option<u32>)
    ensures
        match r {
            Some(v) => hex_val(c) == Some(v as int) && v < 16,
            None => hex_val(c) is None,
        },
{
    let d = c as u32;
    if 48 <= d && d <= 57 {
        Some(d - 48)
    } else if 97 <= d && d <= 102 {
        Some(d - 87)
    } else if 65 <= d && d <= 70 {
        Some(d - 55)
    } else {
        None
    }
}

fn short_escape_char(e: char) -> (r: Option<char>)
    ensures
        r == short_escape(e),
{
    if e == '"' {
        Some('"')
    } else if e == '\\' {
        Some('\\')
    } else if e == '/' {
        Some('/')
    } else if e == 'b' {
        Some('\u{0008}')
    } else if e == 'f' {
        Some('\u{000C}')
    } else if e == 'n' {
        Some('\n')
    } else if e == 'r' {
        Some('\r')
    } else if e == 't' {
        Some('\t')
    } else {
        None
    }
}

/// Reads a string body up to and past its closing quote, undoing escapes.
fn p_str_body<'a>(s: &'a str) -> (r: Option<(String, &'a str)>)
    ensures
        match r {
            Some(p) => parse_str_body(s@) == Some((p.0@, p.1@)),
            None => parse_str_body(s@) is None,
        },
    decreases s@.len(),
{
    let n = s.unicode_len();
    if n == 0 {
        return None;
    }
    let c0 = s.get_char(0);
    if c0 == '"' {
        let rest = s.substring_char(1, n);
        proof {
            assert(rest@ =~= s@.drop_first());
        }
        return Some((String::new(), rest));
    }
    if c0 == '\\' {
        if n < 2 {
            return None;
        }
        let c1 = s.get_char(1);
        if c1 == 'u' {
            if n < 6 {
                return None;
            }
            let ghost hseq = s@.subrange(2, 6);
            proof {
                assert(hseq[0] == s@[2]);
                assert(hseq[1] == s@[3]);
                assert(hseq[2] == s@[4]);
                assert(hseq[3] == s@[5]);
            }
            let o0 = hex_val_char(s.get_char(2));
            let o1 = hex_val_char(s.get_char(3));
            let o2 = hex_val_char(s.get_char(4));
            let o3 = hex_val_char(s.get_char(5));
            if o0.is_none() || o1.is_none() || o2.is_none() || o3.is_none() {
                proof {
                    assert(hex4_val(hseq) is None);
                }
                return None;
            }
            let v = o0.unwrap() * 4096 + o1.unwrap() * 256 + o2.unwrap() * 16 + o3.unwrap();
            proof {
                assert(hex4_val(hseq) == Some(v as int));
            }
            if 0xD800 <= v && v < 0xE000 {
                proof {
                    assert(!valid_scalar(v as int));
                }
                return None;
            }
            let c = match char_from_u32(v) {
                Some(c) => c,
                None => {
                    proof {
                        assert(false);
                    }
                    return None;
                },
            };
            let rest0 = s.substring_char(6, n);
            proof {
                assert(rest0@ =~= s@.skip(6));
            }
            match p_str_body(rest0) {
                None => {
                    return None;
                },
                Some((tail, rest)) => {
                    let mut out = String::new();
                    push_char(&mut out, c);
                    out.append(tail.as_str());
                    proof {
                        assert(out@ =~= seq![v as char] + tail@);
                    }
                    return Some((out, rest));
                },
            }
        } else {
            match short_escape_char(c1) {
                None => {
                    return None;
                },
                Some(c) => {
                    let rest0 = s.substring_char(2, n);
                    proof {
                        assert(rest0@ =~= s@.skip(2));
                    }
                    match p_str_body(rest0) {
                        None => {
                            return None;
                        },
                        Some((tail, rest)) => {
                            let mut out = String::new();
                            push_char(&mut out, c);
                            out.append(tail.as_str());
                            proof {
                                assert(out@ =~= seq![c] + tail@);
                            }
                            return Some((out, rest));
                        },
                    }
                },
            }
        }
    }
    if (c0 as u32) < 32 {
        return None;
    }
    let rest0 = s.substring_char(1, n);
    proof {
        assert(rest0@ =~= s@.drop_first());
    }
    match p_str_body(rest0) {
        None => None,
        Some((tail, rest)) => {
            let mut out = String::new();
            push_char(&mut out, c0);
            out.append(tail.as_str());
            proof {
                assert(out@ =~= seq![c0] + tail@);
            }
            Some((out, rest))
        },
    }
}

/// Reads a whole JSON string literal.
fn p_string<'a>(s: &'a str) -> (r: Option<(String, &'a str)>)
    ensures
        match r {
            Some(p) => parse_string(s@) == Some((p.0@, p.1@)),
            None => parse_string(s@) is None,
        },
{
    let n = s.unicode_len();
    if n == 0 {
        return None;
    }
    if s.get_char(0) != '"' {
        return None;
    }
    let body = s.substring_char(1, n);
    proof {
        assert(body@ =~= s@.drop_first());
    }
    p_str_body(body)
}

/// Reads a JSON boolean.
fn p_bool<'a>(s: &'a str) -> (r: Option<(bool, &'a str)>)
    ensures
        match r {
            Some(p) => parse_bool(s@) == Some((p.0, p.1@)),
            None => parse_bool(s@) is None,
        },
{
    proof {
        reveal_strlit("true");
        reveal_strlit("false");
        assert("true"@ =~= lit_true());
        assert("false"@ =~= lit_false());
    }
    match p_lit(s, "true") {
        Some(rest) => Some((true, rest)),
        None => match p_lit(s, "false") {
            Some(rest) => Some((false, rest)),
            None => None,
        },
    }
}

/// Reads one task object.
#[verifier::rlimit(60)]
fn p_task<'a>(s: &'a str) -> (r: Option<(Task, &'a str)>)
    ensures
        match r {
            Some(p) => parse_task(s@) == Some((p.0@, p.1@)),
            None => parse_task(s@) is None,
        },
{
    proof {
        reveal_strlit("{");
        reveal_strlit("}");
        reveal_strlit(":");
        reveal_strlit(",");
        reveal_strlit("\"name\"");
        reveal_strlit("\"desc\"");
        reveal_strlit("\"due_date\"");
        reveal_strlit("\"done\"");
        assert("{"@ =~= seq!['{']);
        assert("}"@ =~= seq!['}']);
        assert(":"@ =~= seq![':']);
        assert(","@ =~= seq![',']);
        assert("\"name\""@ =~= key_name());
        assert("\"desc\""@ =~= key_desc());
        assert("\"due_date\""@ =~= key_due_date());
        assert("\"done\""@ =~= key_done());
    }
    let s1 = match p_lit(s, "{") {
        Some(r) => r,
        None => {
            return None;
        },
    };
    let s2 = match p_lit(p_skip_ws(s1), "\"name\"") {
        Some(r) => r,
        None => {
            return None;
        },
    };
    let s3 = match p_lit(p_skip_ws(s2), ":") {
        Some(r) => r,
        None => {
            return None;
        },
    };
    let (name, s4) = match p_string(p_skip_ws(s3)) {
        Some(p) => p,
        None => {
            return None;
        },
    };
    let s5 = match p_lit(p_skip_ws(s4), ",") {
        Some(r) => r,
        None => {
            return None;
        },
    };
    let s6 = match p_lit(p_skip_ws(s5), "\"desc\"") {
        Some(r) => r,
        None => {
            return None;
        },
    };
    let s7 = match p_lit(p_skip_ws(s6), ":") {
        Some(r) => r,
        None => {
            return None;
        },
    };
    let (desc, s8) = match p_string(p_skip_ws(s7)) {
        Some(p) => p,
        None => {
            return None;
        },
    };
    let s9 = match p_lit(p_skip_ws(s8), ",") {
        Some(r) => r,
        None => {
            return None;
        },
    };
    let s10 = match p_lit(p_skip_ws(s9), "\"due_date\"") {
        Some(r) => r,
        None => {
            return None;
        },
    };
    let s11 = match p_lit(p_skip_ws(s10), ":") {
        Some(r) => r,
        None => {
            return None;
        },
    };
    let (due_date, s12) = match p_string(p_skip_ws(s11)) {
        Some(p) => p,
        None => {
            return None;
        },
    };
    let s13 = match p_lit(p_skip_ws(s12), ",") {
        Some(r) => r,
        None => {
            return None;
        },
    };
    let s14 = match p_lit(p_skip_ws(s13), "\"done\"") {
        Some(r) => r,
        None => {
            return None;
        },
    };
    let s15 = match p_lit(p_skip_ws(s14), ":") {
        Some(r) => r,
        None => {
            return None;
        },
    };
    let (done, s16) = match p_bool(p_skip_ws(s15)) {
        Some(p) => p,
        None => {
            return None;
        },
    };
    let rest = match p_lit(p_skip_ws(s16), "}") {
        Some(r) => r,
        None => {
            return None;
        },
    };
    Some((Task { name, desc, due_date, done }, rest))
}

/// Reads the object list after the opening bracket, up to and past the
/// closing bracket.
fn p_items<'a>(s: &'a str) -> (r: Option<(Vec<Task>, &'a str)>)
    ensures
        match r {
            Some(p) => parse_items(s@) == Some((p.0.deep_view(), p.1@)),
            None => parse_items(s@) is None,
        },
    decreases s@.len(),
{
    let (t, r0) = match p_task(s) {
        Some(p) => p,
        None => {
            return None;
        },
    };
    let r1 = p_skip_ws(r0);
    let n1 = r1.unicode_len();
    if n1 == 0 {
        return None;
    }
    let c = r1.get_char(0);
    if c == ',' {
        let after = r1.substring_char(1, n1);
        proof {
            assert(after@ =~= r1@.drop_first());
        }
        let next = p_skip_ws(after);
        proof {
            lemma_parse_task_consumes(s@);
            lemma_skip_ws_len(r0@);
            lemma_skip_ws_len(after@);
        }
        match p_items(next) {
            None => None,
            Some((mut ts, rest)) => {
                let ghost prior = ts.deep_view();
                ts.insert(0, t);
                proof {
                    assert(ts.deep_view() =~= seq![t@] + prior);
                }
                Some((ts, rest))
            },
        }
    } else if c == ']' {
        let rest = r1.substring_char(1, n1);
        let mut v: Vec<Task> = Vec::new();
        v.push(t);
        proof {
            assert(v.deep_view() =~= seq![t@]);
            assert(rest@ =~= r1@.drop_first());
        }
        Some((v, rest))
    } else {
        None
    }
}

/// Parses a whole persistence document, fully in memory.  Yields the task
/// list exactly when the document is well formed as `spec_parse_tasks`
/// defines it, and nothing on malformed content.
pub fn load_tasks(s: &str) -> (r: Option<Vec<Task>>)
    ensures
        match r {
            Some(ts) => spec_parse_tasks(s@) == Some(ts.deep_view()),
            None => spec_parse_tasks(s@) is None,
        },
{
    proof {
        reveal_strlit("[");
        assert("["@ =~= seq!['[']);
    }
    let s0 = p_skip_ws(s);
    let s1 = match p_lit(s0, "[") {
        Some(r) => r,
        None => {
            return None;
        },
    };
    let s2 = p_skip_ws(s1);
    let n2 = s2.unicode_len();
    if n2 > 0 && s2.get_char(0) == ']' {
        let rest = s2.substring_char(1, n2);
        proof {
            assert(rest@ =~= s2@.drop_first());
        }
        let tail = p_skip_ws(rest);
        if tail.unicode_len() == 0 {
            let v: Vec<Task> = Vec::new();
            proof {
                assert(tail@ =~= Seq::<char>::empty());
                assert(v.deep_view() =~= Seq::<TaskView>::empty());
            }
            return Some(v);
        } else {
            return None;
        }
    }
    match p_items(s2) {
        None => None,
        Some((ts, rest)) => {
            let tail = p_skip_ws(rest);
            if tail.unicode_len() == 0 {
                Some(ts)
            } else {
                None
            }
        },
    }
}

// ---------------------------------------------------------------------------
// The round trip: parsing a serialized document gives back what was saved.
// ---------------------------------------------------------------------------

/// A literal at the front of the input is consumed exactly.
proof fn lemma_match_lit_prefix(lit: Seq<char>, rest: Seq<char>)
    ensures
        match_lit(lit + rest, lit) == Some(rest),
{
    let s = lit + rest;
    assert(s.take(lit.len() as int) =~= lit);
    assert(s.skip(lit.len() as int) =~= rest);
}

/// A hexadecimal digit reads back as its value.
proof fn lemma_hex_digit_val(d: int)
    requires
        0 <= d < 16,
    ensures
        hex_val(hex_digit(d)) == Some(d),
{
}

/// Parsing undoes escaping: the body of a serialized string reads back as
/// the original text, leaving exactly what followed the closing quote.
proof fn lemma_parse_str_body_inv(v: Seq<char>, rest: Seq<char>)
    ensures
        parse_str_body(esc_str(v) + seq!['"'] + rest) == Some((v, rest)),
    decreases v.len(),
{
    let s = esc_str(v) + seq!['"'] + rest;
    if v.len() == 0 {
        assert(s =~= seq!['"'] + rest);
        assert(s[0] == '"');
        assert(s.drop_first() =~= rest);
        assert(Seq::<char>::empty() =~= v);
    } else {
        let c = v[0];
        let tail = esc_str(v.drop_first()) + seq!['"'] + rest;
        assert(esc_str(v) == esc_char(c) + esc_str(v.drop_first()));
        assert(s =~= esc_char(c) + tail);
        lemma_parse_str_body_inv(v.drop_first(), rest);
        if c == '"' {
            assert(s[0] == '\\');
            assert(s[1] == '"');
            assert(short_escape('"') == Some('"'));
            assert(s.skip(2) =~= tail);
            assert(parse_str_body(s) == Some((seq![c] + v.drop_first(), rest)));
            assert(seq![c] + v.drop_first() =~= v);
        } else if c == '\\' {
            assert(s[0] == '\\');
            assert(s[1] == '\\');
            assert(short_escape('\\') == Some('\\'));
            assert(s.skip(2) =~= tail);
            assert(parse_str_body(s) == Some((seq![c] + v.drop_first(), rest)));
            assert(seq![c] + v.drop_first() =~= v);
        } else if (c as u32) < 32 {
            let hi = c as u32 as int / 16;
            let lo = c as u32 as int % 16;
            assert(esc_char(c) == seq!['\\', 'u', '0', '0', hex_digit(hi), hex_digit(lo)]);
            assert(s[0] == '\\');
            assert(s[1] == 'u');
            assert(s.len() >= 6);
            let hseq = s.subrange(2, 6);
            assert(hseq =~= seq!['0', '0', hex_digit(hi), hex_digit(lo)]);
            assert(hex_val('0') == Some(0int));
            lemma_hex_digit_val(hi);
            lemma_hex_digit_val(lo);
            assert(hex4_val(hseq) == Some(hi * 16 + lo));
            assert(hi * 16 + lo == c as u32 as int);
            assert(valid_scalar(c as u32 as int));
            vstd::utf8::char_u32_cast(c, c as u32);
            assert((hi * 16 + lo) as char == c);
            assert(s.skip(6) =~= tail);
            assert(parse_str_body(s) == Some((seq![c] + v.drop_first(), rest)));
            assert(seq![c] + v.drop_first() =~= v);
        } else {
            assert(s[0] == c);
            assert(s.drop_first() =~= tail);
            assert(parse_str_body(s) == Some((seq![c] + v.drop_first(), rest)));
            assert(seq![c] + v.drop_first() =~= v);
        }
    }
}

/// A serialized string literal reads back as the original text.
proof fn lemma_parse_string_inv(v: Seq<char>, rest: Seq<char>)
    ensures
        parse_string(ser_string(v) + rest) == Some((v, rest)),
{
    let s = ser_string(v) + rest;
    assert(s[0] == '"');
    assert(s.drop_first() =~= esc_str(v) + seq!['"'] + rest);
    lemma_parse_str_body_inv(v, rest);
}

/// A serialized boolean reads back as itself.
proof fn lemma_parse_bool_inv(b: bool, rest: Seq<char>)
    ensures
        parse_bool(ser_bool(b) + rest) == Some((b, rest)),
{
    if b {
        lemma_match_lit_prefix(lit_true(), rest);
    } else {
        lemma_match_lit_prefix(lit_false(), rest);
        let s = lit_false() + rest;
        if match_lit(s, lit_true()) is Some {
            assert(s.take(4)[0] == lit_true()[0]);
            assert(s[0] == 'f');
            assert(false);
        }
    }
}

/// A serialized `"key": "string"` field reads back as the original text.
proof fn lemma_parse_field_inv(key: Seq<char>, val: Seq<char>, after: Seq<char>)
    requires
        key.len() > 0,
        key[0] == '"',
    ensures
        parse_field(key + (seq![':'] + (ser_string(val) + after)), key) == Some((val, after)),
{
    let g3 = ser_string(val) + after;
    let g2 = seq![':'] + g3;
    let s = key + g2;
    assert(s[0] == '"');
    assert(skip_ws(s) == s);
    lemma_match_lit_prefix(key, g2);
    assert(g2[0] == ':');
    assert(skip_ws(g2) == g2);
    lemma_match_lit_prefix(seq![':'], g3);
    assert(g3[0] == '"');
    assert(skip_ws(g3) == g3);
    lemma_parse_string_inv(val, after);
}

/// A serialized task followed by `rest`, regrouped to mirror the parser's
/// left-to-right consumption.
#[verifier::rlimit(100)]
proof fn lemma_ser_task_shape(t: TaskView, rest: Seq<char>)
    ensures
        ser_task(t) + rest == seq!['{'] + (key_name() + (seq![':'] + (ser_string(t.name) + (
        seq![','] + (key_desc() + (seq![':'] + (ser_string(t.desc) + (seq![','] + (key_due_date()
            + (seq![':'] + (ser_string(t.due_date) + (seq![','] + (key_done() + (seq![':'] + (
        ser_bool(t.done) + (seq!['}'] + rest)))))))))))))))),
{
    assert(ser_task(t) + rest =~= seq!['{'] + (key_name() + (seq![':'] + (ser_string(t.name) + (
    seq![','] + (key_desc() + (seq![':'] + (ser_string(t.desc) + (seq![','] + (key_due_date() + (
    seq![':'] + (ser_string(t.due_date) + (seq![','] + (key_done() + (seq![':'] + (ser_bool(t.done)
        + (seq!['}'] + rest)))))))))))))))));
}

/// A serialized task object reads back as the original task, leaving
/// exactly what followed the closing brace.
#[verifier::rlimit(100)]
proof fn lemma_parse_task_inv(t: TaskView, rest: Seq<char>)
    ensures
        parse_task(ser_task(t) + rest) == Some((t, rest)),
{
    let g16 = seq!['}'] + rest;
    let g15 = ser_bool(t.done) + g16;
    let g14 = seq![':'] + g15;
    let g13 = key_done() + g14;
    let g12 = seq![','] + g13;
    let f3 = key_due_date() + (seq![':'] + (ser_string(t.due_date) + g12));
    let g8 = seq![','] + f3;
    let f2 = key_desc() + (seq![':'] + (ser_string(t.desc) + g8));
    let g4 = seq![','] + f2;
    let f1 = key_name() + (seq![':'] + (ser_string(t.name) + g4));
    let s = ser_task(t) + rest;
    lemma_ser_task_shape(t, rest);
    assert(s == seq!['{'] + f1);
    lemma_match_lit_prefix(seq!['{'], f1);
    assert(match_lit(s, seq!['{']) == Some(f1));
    lemma_parse_field_inv(key_name(), t.name, g4);
    assert(parse_field(f1, key_name()) == Some((t.name, g4)));
    assert(g4[0] == ',');
    assert(skip_ws(g4) == g4);
    lemma_match_lit_prefix(seq![','], f2);
    lemma_parse_field_inv(key_desc(), t.desc, g8);
    assert(parse_field(f2, key_desc()) == Some((t.desc, g8)));
    assert(g8[0] == ',');
    assert(skip_ws(g8) == g8);
    lemma_match_lit_prefix(seq![','], f3);
    lemma_parse_field_inv(key_due_date(), t.due_date, g12);
    assert(parse_field(f3, key_due_date()) == Some((t.due_date, g12)));
    assert(g12[0] == ',');
    assert(skip_ws(g12) == g12);
    lemma_match_lit_prefix(seq![','], g13);
    assert(g13[0] == '"');
    assert(skip_ws(g13) == g13);
    lemma_match_lit_prefix(key_done(), g14);
    assert(g14[0] == ':');
    assert(skip_ws(g14) == g14);
    lemma_match_lit_prefix(seq![':'], g15);
    assert(g15[0] == if t.done {
        't'
    } else {
        'f'
    });
    assert(skip_ws(g15) == g15);
    lemma_parse_bool_inv(t.done, g16);
    assert(parse_bool(g15) == Some((t.done, g16)));
    assert(g16[0] == '}');
    assert(skip_ws(g16) == g16);
    lemma_match_lit_prefix(seq!['}'], rest);
    assert(match_lit(g16, seq!['}']) == Some(rest));
    assert(parse_task(s) == Some(
        (TaskView { name: t.name, desc: t.desc, due_date: t.due_date, done: t.done }, rest),
    ));
    assert(TaskView { name: t.name, desc: t.desc, due_date: t.due_date, done: t.done } == t);
}

/// A serialized object list starts with an opening brace.
proof fn lemma_ser_items_head(ts: Seq<TaskView>)
    requires
        ts.len() >= 1,
    ensures
        ser_items(ts).len() >= 1,
        ser_items(ts)[0] == '{',
{
    assert(ser_task(ts[0])[0] == '{');
}

/// A serialized object list, the closing bracket behind it, reads back as
/// the original tasks.
#[verifier::rlimit(100)]
proof fn lemma_parse_items_inv(ts: Seq<TaskView>, rest: Seq<char>)
    requires
        ts.len() >= 1,
    ensures
        parse_items(ser_items(ts) + seq![']'] + rest) == Some((ts, rest)),
    decreases ts.len(),
{
    let s = ser_items(ts) + seq![']'] + rest;
    if ts.len() == 1 {
        assert(ser_items(ts) == ser_task(ts[0]));
        let tail = seq![']'] + rest;
        lemma_parse_task_inv(ts[0], tail);
        assert(s =~= ser_task(ts[0]) + tail);
        assert(parse_task(s) == Some((ts[0], tail)));
        assert(tail[0] == ']');
        assert(skip_ws(tail) == tail);
        assert(tail.drop_first() =~= rest);
        assert(seq![ts[0]] =~= ts);
    } else {
        assert(ser_items(ts) == ser_task(ts[0]) + seq![','] + ser_items(ts.drop_first()));
        let inner = ser_items(ts.drop_first()) + seq![']'] + rest;
        let tail = seq![','] + inner;
        lemma_parse_task_inv(ts[0], tail);
        assert(s =~= ser_task(ts[0]) + tail);
        assert(parse_task(s) == Some((ts[0], tail)));
        assert(tail[0] == ',');
        assert(skip_ws(tail) == tail);
        assert(tail.drop_first() =~= inner);
        lemma_ser_items_head(ts.drop_first());
        assert(inner[0] == '{');
        assert(skip_ws(inner) == inner);
        lemma_parse_items_inv(ts.drop_first(), rest);
        assert(parse_items(inner) == Some((ts.drop_first(), rest)));
        assert(seq![ts[0]] + ts.drop_first() =~= ts);
    }
}

/// Law: the persistence round trip is exact — parsing the document written
/// for any task sequence, the empty one included, yields that sequence
/// again, same length, same order, all four fields of every task intact.
pub proof fn lemma_save_load_round_trip(ts: Seq<TaskView>)
    ensures
        spec_parse_tasks(ser_tasks(ts)) == Some(ts),
{
    let s = ser_tasks(ts);
    assert(s[0] == '[');
    assert(skip_ws(s) == s);
    let s1 = ser_items(ts) + seq![']'];
    assert(s =~= seq!['['] + s1);
    lemma_match_lit_prefix(seq!['['], s1);
    assert(match_lit(s, seq!['[']) == Some(s1));
    if ts.len() == 0 {
        assert(s1 =~= seq![']']);
        assert(s1[0] == ']');
        assert(skip_ws(s1) == s1);
        assert(s1.drop_first() =~= Seq::<char>::empty());
        assert(skip_ws(Seq::<char>::empty()).len() == 0);
        assert(Seq::<TaskView>::empty() =~= ts);
    } else {
        lemma_ser_items_head(ts);
        assert(s1[0] == '{');
        assert(skip_ws(s1) == s1);
        lemma_parse_items_inv(ts, Seq::empty());
        assert(ser_items(ts) + seq![']'] + Seq::<char>::empty() =~= s1);
        assert(parse_items(s1) == Some((ts, Seq::<char>::empty())));
        assert(skip_ws(Seq::<char>::empty()).len() == 0);
    }
}

} // verus!

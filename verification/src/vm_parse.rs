use vstd::prelude::*;

use crate::hardware::Word;
use crate::hardware_parse::ParseError;
use crate::os::in_word;
use crate::scan::{
    in_class, lemma_match, lemma_match_whole, lemma_no_match, lemma_run_end, lemma_run_until, matches_at, matches_str_at,
    run_end, scan, string_of_range, CharClass,
};
use crate::text::{int_text, nat_digits, str_chars};
use crate::vm::{
    command_text, commands_of, decimal_value, lemma_decimal_grows, lemma_digits_value, all_digits, pop_segment_text,
    push_segment_text, Command, PopSegment, PushSegment, VMCommand,
};

verus! {

// ---------------------------------------------------------------- the grammar

/// The end of a line break (`\n` or `\r\n`) at `i`.
pub open spec fn line_break_at(s: Seq<char>, i: int) -> Option<int> {
    if 0 <= i < s.len() && s[i] == '\n' {
        Some(i + 1)
    } else if 0 <= i && i + 1 < s.len() && s[i] == '\r' && s[i + 1] == '\n' {
        Some(i + 2)
    } else {
        None
    }
}

/// A line break at `i`, or the end of the text.
pub open spec fn break_or_end(s: Seq<char>, i: int) -> Option<int> {
    match line_break_at(s, i) {
        Some(j) => Some(j),
        None => if i == s.len() { Some(i) } else { None },
    }
}

/// One line that holds no command: spaces, `//` and a comment to the line's end; or one
/// or more spaces to the line's end; or an empty line.
pub open spec fn blank_line(s: Seq<char>, i: int) -> Option<int> {
    let j = run_end(s, i, s.len() as int, CharClass::SpaceTab);
    if matches_at(s, j, s.len() as int, "//"@) {
        break_or_end(s, run_end(s, j + 2, s.len() as int, CharClass::NotLineBreak))
    } else if j > i && break_or_end(s, j) is Some {
        break_or_end(s, j)
    } else {
        line_break_at(s, i)
    }
}

/// The end of the blank lines from `i` on (`i` where there are none).
pub open spec fn blank_lines_from(s: Seq<char>, i: int) -> int
    decreases s.len() - i,
{
    match blank_line(s, i) {
        Some(j) => if i < j <= s.len() { blank_lines_from(s, j) } else { i },
        None => i,
    }
}

/// One or more blank lines at `i`: where they end.
pub open spec fn blank_lines(s: Seq<char>, i: int) -> Option<int> {
    match blank_line(s, i) {
        Some(j) => Some(blank_lines_from(s, j)),
        None => None,
    }
}

/// A decimal word with an optional sign at `i`: its value and end. The digits run as far
/// as they go; `None` where there is none or the value is not a word.
pub open spec fn word_at(s: Seq<char>, i: int) -> Option<(Word, int)> {
    let neg = 0 <= i < s.len() && s[i] == '-';
    let d0 = if 0 <= i < s.len() && (s[i] == '-' || s[i] == '+') { i + 1 } else { i };
    let d1 = run_end(s, d0, s.len() as int, CharClass::Digit);
    let v = decimal_value(s.subrange(d0, d1));
    let value = if neg { -v } else { v };
    if d1 == d0 || !in_word(value) { None } else { Some((value as Word, d1)) }
}

/// A name at `i`: a run of ASCII letters, digits, '_' and '.'.
pub open spec fn name_end(s: Seq<char>, i: int) -> Option<int> {
    let j = run_end(s, i, s.len() as int, CharClass::Identifier);
    if j > i { Some(j) } else { None }
}

/// One or more spaces at `i`: where they end.
pub open spec fn spaces1(s: Seq<char>, i: int) -> Option<int> {
    let j = run_end(s, i, s.len() as int, CharClass::SpaceTab);
    if j > i { Some(j) } else { None }
}

/// `keyword` and one or more spaces at `i`.
pub open spec fn keyword_at(s: Seq<char>, i: int, keyword: Seq<char>) -> Option<int> {
    if matches_at(s, i, s.len() as int, keyword) { spaces1(s, i + keyword.len()) } else { None }
}

/// A segment that can be pushed from, at `i`.
pub open spec fn push_segment_at(s: Seq<char>, i: int) -> Option<(PushSegment, int)> {
    let n = s.len() as int;
    if matches_at(s, i, n, "constant"@) { Some((PushSegment::Constant, i + 8)) }
    else if matches_at(s, i, n, "static"@) { Some((PushSegment::Static, i + 6)) }
    else if matches_at(s, i, n, "local"@) { Some((PushSegment::Local, i + 5)) }
    else if matches_at(s, i, n, "argument"@) { Some((PushSegment::Argument, i + 8)) }
    else if matches_at(s, i, n, "this"@) { Some((PushSegment::This, i + 4)) }
    else if matches_at(s, i, n, "that"@) { Some((PushSegment::That, i + 4)) }
    else if matches_at(s, i, n, "temp"@) { Some((PushSegment::Temp, i + 4)) }
    else if matches_at(s, i, n, "pointer"@) { Some((PushSegment::Pointer, i + 7)) }
    else { None }
}

/// A segment that can be popped into, at `i`.
pub open spec fn pop_segment_at(s: Seq<char>, i: int) -> Option<(PopSegment, int)> {
    let n = s.len() as int;
    if matches_at(s, i, n, "static"@) { Some((PopSegment::Static, i + 6)) }
    else if matches_at(s, i, n, "local"@) { Some((PopSegment::Local, i + 5)) }
    else if matches_at(s, i, n, "argument"@) { Some((PopSegment::Argument, i + 8)) }
    else if matches_at(s, i, n, "this"@) { Some((PopSegment::This, i + 4)) }
    else if matches_at(s, i, n, "that"@) { Some((PopSegment::That, i + 4)) }
    else if matches_at(s, i, n, "temp"@) { Some((PopSegment::Temp, i + 4)) }
    else if matches_at(s, i, n, "pointer"@) { Some((PopSegment::Pointer, i + 7)) }
    else { None }
}

/// `push segment offset` at `i`.
pub open spec fn push_at(s: Seq<char>, i: int) -> Option<(Command, int)> {
    match keyword_at(s, i, "push"@) {
        None => None,
        Some(j) => match push_segment_at(s, j) {
            None => None,
            Some((segment, k)) => match spaces1(s, k) {
                None => None,
                Some(l) => match word_at(s, l) {
                    None => None,
                    Some((offset, m)) => Some((Command::Push(segment, offset), m)),
                },
            },
        },
    }
}

/// `pop segment offset` at `i`.
pub open spec fn pop_at(s: Seq<char>, i: int) -> Option<(Command, int)> {
    match keyword_at(s, i, "pop"@) {
        None => None,
        Some(j) => match pop_segment_at(s, j) {
            None => None,
            Some((segment, k)) => match spaces1(s, k) {
                None => None,
                Some(l) => match word_at(s, l) {
                    None => None,
                    Some((offset, m)) => Some((Command::Pop(segment, offset), m)),
                },
            },
        },
    }
}

/// `keyword name` at `i`: where the name starts and ends.
pub open spec fn one_arg_at(s: Seq<char>, i: int, keyword: Seq<char>) -> Option<(int, int)> {
    match keyword_at(s, i, keyword) {
        None => None,
        Some(j) => match name_end(s, j) {
            None => None,
            Some(k) => Some((j, k)),
        },
    }
}

/// `keyword name count` at `i`: where the name starts and ends, the count, and the end.
pub open spec fn two_args_at(s: Seq<char>, i: int, keyword: Seq<char>) -> Option<(int, int, Word, int)> {
    match one_arg_at(s, i, keyword) {
        None => None,
        Some((j, k)) => match spaces1(s, k) {
            None => None,
            Some(l) => match word_at(s, l) {
                None => None,
                Some((count, m)) => Some((j, k, count, m)),
            },
        },
    }
}

/// A command without arguments at `i`.
pub open spec fn bare_command_at(s: Seq<char>, i: int) -> Option<(Command, int)> {
    let n = s.len() as int;
    if matches_at(s, i, n, "add"@) { Some((Command::Add, i + 3)) }
    else if matches_at(s, i, n, "sub"@) { Some((Command::Sub, i + 3)) }
    else if matches_at(s, i, n, "neg"@) { Some((Command::Neg, i + 3)) }
    else if matches_at(s, i, n, "eq"@) { Some((Command::Eq, i + 2)) }
    else if matches_at(s, i, n, "gt"@) { Some((Command::Gt, i + 2)) }
    else if matches_at(s, i, n, "lt"@) { Some((Command::Lt, i + 2)) }
    else if matches_at(s, i, n, "and"@) { Some((Command::And, i + 3)) }
    else if matches_at(s, i, n, "or"@) { Some((Command::Or, i + 2)) }
    else if matches_at(s, i, n, "not"@) { Some((Command::Not, i + 3)) }
    else if matches_at(s, i, n, "return"@) { Some((Command::Return, i + 6)) }
    else { None }
}

/// A command at `i`, the alternatives tried in order: push, pop, label, goto, if-goto,
/// function, call, and the commands without arguments.
pub open spec fn command_body_at(s: Seq<char>, i: int) -> Option<(Command, int)> {
    if push_at(s, i) is Some {
        push_at(s, i)
    } else if pop_at(s, i) is Some {
        pop_at(s, i)
    } else if one_arg_at(s, i, "label"@) is Some {
        let (j, k) = one_arg_at(s, i, "label"@).unwrap();
        Some((Command::Label(s.subrange(j, k)), k))
    } else if one_arg_at(s, i, "goto"@) is Some {
        let (j, k) = one_arg_at(s, i, "goto"@).unwrap();
        Some((Command::Goto(s.subrange(j, k)), k))
    } else if one_arg_at(s, i, "if-goto"@) is Some {
        let (j, k) = one_arg_at(s, i, "if-goto"@).unwrap();
        Some((Command::IfGoto(s.subrange(j, k)), k))
    } else if two_args_at(s, i, "function"@) is Some {
        let (j, k, count, m) = two_args_at(s, i, "function"@).unwrap();
        Some((Command::Function(s.subrange(j, k), count), m))
    } else if two_args_at(s, i, "call"@) is Some {
        let (j, k, count, m) = two_args_at(s, i, "call"@).unwrap();
        Some((Command::Call(s.subrange(j, k), count), m))
    } else {
        bare_command_at(s, i)
    }
}

/// A command at `i`, with the spaces before and after it.
pub open spec fn command_at(s: Seq<char>, i: int) -> Option<(Command, int)> {
    let n = s.len() as int;
    match command_body_at(s, run_end(s, i, n, CharClass::SpaceTab)) {
        None => None,
        Some((c, j)) => Some((c, run_end(s, j, n, CharClass::SpaceTab))),
    }
}

/// The commands after the one that ends at `i`, each after blank lines, and where the
/// last ends.
pub open spec fn more_commands(s: Seq<char>, i: int) -> (Seq<Command>, int)
    decreases s.len() - i,
{
    match blank_lines(s, i) {
        None => (Seq::empty(), i),
        Some(j) => match command_at(s, j) {
            None => (Seq::empty(), i),
            Some((c, k)) => if i < k <= s.len() {
                let (rest, e) = more_commands(s, k);
                (seq![c] + rest, e)
            } else {
                (Seq::empty(), i)
            },
        },
    }
}

/// A whole VM file: optional blank lines, one or more commands separated by blank lines,
/// optional blank lines, and nothing else.
pub open spec fn parse_commands(s: Seq<char>) -> Option<Seq<Command>> {
    let i0 = match blank_lines(s, 0) {
        Some(j) => j,
        None => 0,
    };
    match command_at(s, i0) {
        None => None,
        Some((c, k)) => {
            let (rest, e) = more_commands(s, k);
            let e2 = match blank_lines(s, e) {
                Some(j) => j,
                None => e,
            };
            if e2 == s.len() { Some(seq![c] + rest) } else { None }
        },
    }
}

// ---------------------------------------------------------------- the parser

/// A position as a mathematical integer.
pub open spec fn as_pos(r: Option<usize>) -> Option<int> {
    match r {
        Some(j) => Some(j as int),
        None => None,
    }
}

fn line_break_exec(cs: &Vec<char>, i: usize) -> (r: Option<usize>)
    requires
        i <= cs@.len(),
    ensures
        as_pos(r) == line_break_at(cs@, i as int),
{
    if i < cs.len() && cs[i] == '\n' {
        Some(i + 1)
    } else if i < cs.len() && i + 1 < cs.len() && cs[i] == '\r' && cs[i + 1] == '\n' {
        Some(i + 2)
    } else {
        None
    }
}

fn break_or_end_exec(cs: &Vec<char>, i: usize) -> (r: Option<usize>)
    requires
        i <= cs@.len(),
    ensures
        as_pos(r) == break_or_end(cs@, i as int),
{
    match line_break_exec(cs, i) {
        Some(j) => Some(j),
        None => if i == cs.len() { Some(i) } else { None },
    }
}

fn blank_line_exec(cs: &Vec<char>, i: usize) -> (r: Option<usize>)
    requires
        i <= cs@.len(),
    ensures
        as_pos(r) == blank_line(cs@, i as int),
        r matches Some(j) ==> i < j <= cs@.len(),
{
    let n = cs.len();
    let j = scan(cs, i, n, CharClass::SpaceTab);
    if matches_str_at(cs, j, n, "//") {
        proof {
            reveal_strlit("//");
        }
        let k = scan(cs, j + 2, n, CharClass::NotLineBreak);
        break_or_end_exec(cs, k)
    } else if j > i && break_or_end_exec(cs, j).is_some() {
        break_or_end_exec(cs, j)
    } else {
        line_break_exec(cs, i)
    }
}

/// One or more blank lines at `i`: where they end.
fn blank_lines_exec(cs: &Vec<char>, i: usize) -> (r: Option<usize>)
    requires
        i <= cs@.len(),
    ensures
        as_pos(r) == blank_lines(cs@, i as int),
        r matches Some(j) ==> i < j <= cs@.len(),
{
    let mut j = match blank_line_exec(cs, i) {
        None => {
            return None;
        },
        Some(j) => j,
    };
    let ghost first = j;
    loop
        invariant
            i < first <= j <= cs@.len(),
            blank_lines_from(cs@, first as int) == blank_lines_from(cs@, j as int),
        ensures
            blank_lines_from(cs@, first as int) == j,
            i < j <= cs@.len(),
        decreases cs@.len() - j,
    {
        match blank_line_exec(cs, j) {
            None => {
                break;
            },
            Some(k) => {
                j = k;
            },
        }
    }
    Some(j)
}

/// The value of the digits `cs[d0..d1]`, where it is at most 32768.
fn digits_at_most(cs: &Vec<char>, d0: usize, d1: usize) -> (r: Option<i32>)
    requires
        d0 <= d1 <= cs@.len(),
        all_digits(cs@.subrange(d0 as int, d1 as int)),
    ensures
        match r {
            Some(v) => v == decimal_value(cs@.subrange(d0 as int, d1 as int)) && 0 <= v <= 32768,
            None => decimal_value(cs@.subrange(d0 as int, d1 as int)) > 32768,
        },
{
    let ghost body = cs@.subrange(d0 as int, d1 as int);
    let mut v: i32 = 0;
    let mut i = d0;
    while i < d1
        invariant
            d0 <= i <= d1 <= cs@.len(),
            body == cs@.subrange(d0 as int, d1 as int),
            all_digits(body),
            v == decimal_value(body.take(i - d0)),
            0 <= v <= 32768,
        decreases d1 - i,
    {
        let c = cs[i];
        assert(body[i - d0] == c);
        assert(body.take(i + 1 - d0).drop_last() == body.take(i - d0));
        v = v * 10 + ((c as u32) - ('0' as u32)) as i32;
        assert(v == decimal_value(body.take(i + 1 - d0)));
        if v > 32768 {
            proof {
                lemma_decimal_grows(body, i + 1 - d0);
            }
            return None;
        }
        i = i + 1;
    }
    assert(body.take(d1 - d0) == body);
    Some(v)
}

/// A decimal word with an optional sign at `i`.
fn word_exec(cs: &Vec<char>, i: usize) -> (r: Option<(Word, usize)>)
    requires
        i <= cs@.len(),
    ensures
        match r {
            None => word_at(cs@, i as int) is None,
            Some((v, j)) => word_at(cs@, i as int) == Some((v, j as int)),
        },
        r matches Some((_, j)) ==> i < j <= cs@.len(),
{
    let n = cs.len();
    let neg = i < n && cs[i] == '-';
    let d0 = if i < n && (cs[i] == '-' || cs[i] == '+') { i + 1 } else { i };
    let d1 = scan(cs, d0, n, CharClass::Digit);
    if d1 == d0 {
        return None;
    }
    proof {
        lemma_run_end(cs@, d0 as int, n as int, CharClass::Digit);
        assert forall|k: int| 0 <= k < d1 - d0 implies '0' <= #[trigger] cs@.subrange(d0 as int, d1 as int)[k] <= '9' by {
            assert(cs@.subrange(d0 as int, d1 as int)[k] == cs@[d0 + k]);
        }
    }
    match digits_at_most(cs, d0, d1) {
        None => None,
        Some(v) => {
            let value: i32 = if neg { -v } else { v };
            if value < -32768 || value > 32767 {
                None
            } else {
                Some((value as Word, d1))
            }
        },
    }
}

/// A name at `i`: where it ends.
fn name_exec(cs: &Vec<char>, i: usize) -> (r: Option<usize>)
    requires
        i <= cs@.len(),
    ensures
        as_pos(r) == name_end(cs@, i as int),
        r matches Some(j) ==> i < j <= cs@.len(),
{
    let j = scan(cs, i, cs.len(), CharClass::Identifier);
    if j > i { Some(j) } else { None }
}

/// One or more spaces at `i`: where they end.
fn spaces1_exec(cs: &Vec<char>, i: usize) -> (r: Option<usize>)
    requires
        i <= cs@.len(),
    ensures
        as_pos(r) == spaces1(cs@, i as int),
        r matches Some(j) ==> i < j <= cs@.len(),
{
    let j = scan(cs, i, cs.len(), CharClass::SpaceTab);
    if j > i { Some(j) } else { None }
}

/// `keyword` and one or more spaces at `i`.
fn keyword_exec(cs: &Vec<char>, i: usize, keyword: &str) -> (r: Option<usize>)
    requires
        i <= cs@.len(),
    ensures
        as_pos(r) == keyword_at(cs@, i as int, keyword@),
        r matches Some(j) ==> i < j <= cs@.len(),
{
    if matches_str_at(cs, i, cs.len(), keyword) {
        let k = str_chars(keyword);
        spaces1_exec(cs, i + k.len())
    } else {
        None
    }
}

fn push_segment_exec(cs: &Vec<char>, i: usize) -> (r: Option<(PushSegment, usize)>)
    requires
        i <= cs@.len(),
    ensures
        match r {
            None => push_segment_at(cs@, i as int) is None,
            Some((g, j)) => push_segment_at(cs@, i as int) == Some((g, j as int)),
        },
        r matches Some((_, j)) ==> i < j <= cs@.len(),
{
    let n = cs.len();
    proof {
        reveal_strlit("constant");
        reveal_strlit("static");
        reveal_strlit("local");
        reveal_strlit("argument");
        reveal_strlit("this");
        reveal_strlit("that");
        reveal_strlit("temp");
        reveal_strlit("pointer");
    }
    if matches_str_at(cs, i, n, "constant") { Some((PushSegment::Constant, i + 8)) }
    else if matches_str_at(cs, i, n, "static") { Some((PushSegment::Static, i + 6)) }
    else if matches_str_at(cs, i, n, "local") { Some((PushSegment::Local, i + 5)) }
    else if matches_str_at(cs, i, n, "argument") { Some((PushSegment::Argument, i + 8)) }
    else if matches_str_at(cs, i, n, "this") { Some((PushSegment::This, i + 4)) }
    else if matches_str_at(cs, i, n, "that") { Some((PushSegment::That, i + 4)) }
    else if matches_str_at(cs, i, n, "temp") { Some((PushSegment::Temp, i + 4)) }
    else if matches_str_at(cs, i, n, "pointer") { Some((PushSegment::Pointer, i + 7)) }
    else { None }
}

fn pop_segment_exec(cs: &Vec<char>, i: usize) -> (r: Option<(PopSegment, usize)>)
    requires
        i <= cs@.len(),
    ensures
        match r {
            None => pop_segment_at(cs@, i as int) is None,
            Some((g, j)) => pop_segment_at(cs@, i as int) == Some((g, j as int)),
        },
        r matches Some((_, j)) ==> i < j <= cs@.len(),
{
    let n = cs.len();
    proof {
        reveal_strlit("static");
        reveal_strlit("local");
        reveal_strlit("argument");
        reveal_strlit("this");
        reveal_strlit("that");
        reveal_strlit("temp");
        reveal_strlit("pointer");
    }
    if matches_str_at(cs, i, n, "static") { Some((PopSegment::Static, i + 6)) }
    else if matches_str_at(cs, i, n, "local") { Some((PopSegment::Local, i + 5)) }
    else if matches_str_at(cs, i, n, "argument") { Some((PopSegment::Argument, i + 8)) }
    else if matches_str_at(cs, i, n, "this") { Some((PopSegment::This, i + 4)) }
    else if matches_str_at(cs, i, n, "that") { Some((PopSegment::That, i + 4)) }
    else if matches_str_at(cs, i, n, "temp") { Some((PopSegment::Temp, i + 4)) }
    else if matches_str_at(cs, i, n, "pointer") { Some((PopSegment::Pointer, i + 7)) }
    else { None }
}

/// A command read at `i`: its value and where it ends.
pub open spec fn read_as(r: Option<(VMCommand, usize)>, expected: Option<(Command, int)>) -> bool {
    match expected {
        None => r is None,
        Some((c, j)) => r matches Some((rc, rj)) && rc@ == c && rj == j,
    }
}

fn push_exec(cs: &Vec<char>, i: usize) -> (r: Option<(VMCommand, usize)>)
    requires
        i <= cs@.len(),
    ensures
        read_as(r, push_at(cs@, i as int)),
        r matches Some((_, j)) ==> i < j <= cs@.len(),
{
    let j = match keyword_exec(cs, i, "push") { None => { return None; }, Some(j) => j };
    let (segment, k) = match push_segment_exec(cs, j) { None => { return None; }, Some(p) => p };
    let l = match spaces1_exec(cs, k) { None => { return None; }, Some(l) => l };
    let (offset, m) = match word_exec(cs, l) { None => { return None; }, Some(p) => p };
    Some((VMCommand::Push { segment, offset }, m))
}

fn pop_exec(cs: &Vec<char>, i: usize) -> (r: Option<(VMCommand, usize)>)
    requires
        i <= cs@.len(),
    ensures
        read_as(r, pop_at(cs@, i as int)),
        r matches Some((_, j)) ==> i < j <= cs@.len(),
{
    let j = match keyword_exec(cs, i, "pop") { None => { return None; }, Some(j) => j };
    let (segment, k) = match pop_segment_exec(cs, j) { None => { return None; }, Some(p) => p };
    let l = match spaces1_exec(cs, k) { None => { return None; }, Some(l) => l };
    let (offset, m) = match word_exec(cs, l) { None => { return None; }, Some(p) => p };
    Some((VMCommand::Pop { segment, offset }, m))
}

/// `keyword name` at `i`: where the name starts and ends.
fn one_arg_exec(cs: &Vec<char>, i: usize, keyword: &str) -> (r: Option<(usize, usize)>)
    requires
        i <= cs@.len(),
    ensures
        match r {
            None => one_arg_at(cs@, i as int, keyword@) is None,
            Some((j, k)) => one_arg_at(cs@, i as int, keyword@) == Some((j as int, k as int)),
        },
        r matches Some((j, k)) ==> i < j < k <= cs@.len(),
{
    let j = match keyword_exec(cs, i, keyword) { None => { return None; }, Some(j) => j };
    let k = match name_exec(cs, j) { None => { return None; }, Some(k) => k };
    Some((j, k))
}

/// `keyword name count` at `i`.
fn two_args_exec(cs: &Vec<char>, i: usize, keyword: &str) -> (r: Option<(usize, usize, Word, usize)>)
    requires
        i <= cs@.len(),
    ensures
        match r {
            None => two_args_at(cs@, i as int, keyword@) is None,
            Some((j, k, c, m)) => two_args_at(cs@, i as int, keyword@) == Some((j as int, k as int, c, m as int)),
        },
        r matches Some((j, k, c, m)) ==> i < j < k < m <= cs@.len(),
{
    let (j, k) = match one_arg_exec(cs, i, keyword) { None => { return None; }, Some(p) => p };
    let l = match spaces1_exec(cs, k) { None => { return None; }, Some(l) => l };
    let (count, m) = match word_exec(cs, l) { None => { return None; }, Some(p) => p };
    Some((j, k, count, m))
}

fn bare_command_exec(cs: &Vec<char>, i: usize) -> (r: Option<(VMCommand, usize)>)
    requires
        i <= cs@.len(),
    ensures
        read_as(r, bare_command_at(cs@, i as int)),
        r matches Some((_, j)) ==> i < j <= cs@.len(),
{
    let n = cs.len();
    proof {
        reveal_strlit("add");
        reveal_strlit("sub");
        reveal_strlit("neg");
        reveal_strlit("eq");
        reveal_strlit("gt");
        reveal_strlit("lt");
        reveal_strlit("and");
        reveal_strlit("or");
        reveal_strlit("not");
        reveal_strlit("return");
    }
    if matches_str_at(cs, i, n, "add") { Some((VMCommand::Add, i + 3)) }
    else if matches_str_at(cs, i, n, "sub") { Some((VMCommand::Sub, i + 3)) }
    else if matches_str_at(cs, i, n, "neg") { Some((VMCommand::Neg, i + 3)) }
    else if matches_str_at(cs, i, n, "eq") { Some((VMCommand::Eq, i + 2)) }
    else if matches_str_at(cs, i, n, "gt") { Some((VMCommand::Gt, i + 2)) }
    else if matches_str_at(cs, i, n, "lt") { Some((VMCommand::Lt, i + 2)) }
    else if matches_str_at(cs, i, n, "and") { Some((VMCommand::And, i + 3)) }
    else if matches_str_at(cs, i, n, "or") { Some((VMCommand::Or, i + 2)) }
    else if matches_str_at(cs, i, n, "not") { Some((VMCommand::Not, i + 3)) }
    else if matches_str_at(cs, i, n, "return") { Some((VMCommand::Return, i + 6)) }
    else { None }
}

fn command_body_exec(cs: &Vec<char>, i: usize) -> (r: Option<(VMCommand, usize)>)
    requires
        i <= cs@.len(),
    ensures
        read_as(r, command_body_at(cs@, i as int)),
        r matches Some((_, j)) ==> i < j <= cs@.len(),
{
    let p = push_exec(cs, i);
    if p.is_some() {
        return p;
    }
    let p = pop_exec(cs, i);
    if p.is_some() {
        return p;
    }
    if let Some((j, k)) = one_arg_exec(cs, i, "label") {
        return Some((VMCommand::Label { name: string_of_range(cs, j, k) }, k));
    }
    if let Some((j, k)) = one_arg_exec(cs, i, "goto") {
        return Some((VMCommand::Goto { label_name: string_of_range(cs, j, k) }, k));
    }
    if let Some((j, k)) = one_arg_exec(cs, i, "if-goto") {
        return Some((VMCommand::IfGoto { label_name: string_of_range(cs, j, k) }, k));
    }
    if let Some((j, k, count, m)) = two_args_exec(cs, i, "function") {
        return Some((VMCommand::Function { name: string_of_range(cs, j, k), local_var_count: count }, m));
    }
    if let Some((j, k, count, m)) = two_args_exec(cs, i, "call") {
        return Some((VMCommand::Call { function_name: string_of_range(cs, j, k), argument_count: count }, m));
    }
    bare_command_exec(cs, i)
}

fn command_exec(cs: &Vec<char>, i: usize) -> (r: Option<(VMCommand, usize)>)
    requires
        i <= cs@.len(),
    ensures
        read_as(r, command_at(cs@, i as int)),
        r matches Some((_, j)) ==> i < j <= cs@.len(),
{
    let n = cs.len();
    let a = scan(cs, i, n, CharClass::SpaceTab);
    match command_body_exec(cs, a) {
        None => None,
        Some((c, j)) => {
            let k = scan(cs, j, n, CharClass::SpaceTab);
            Some((c, k))
        },
    }
}

/// One command at the start of `input`, with the spaces around it, and the rest of the
/// input.
pub fn command(input: &str) -> (r: Result<(String, VMCommand), ParseError>)
    ensures
        match command_at(input@, 0) {
            None => r is Err,
            Some((c, j)) => r matches Ok((rest, rc)) && rc@ == c && rest@ == input@.subrange(j, input@.len() as int),
        },
{
    let cs = str_chars(input);
    match command_exec(&cs, 0) {
        None => Err(ParseError),
        Some((c, j)) => Ok((string_of_range(&cs, j, cs.len()), c)),
    }
}

/// One or more lines without commands at the start of `input`, and the rest of the input.
pub fn non_command_lines(input: &str) -> (r: Result<(String, ()), ParseError>)
    ensures
        match blank_lines(input@, 0) {
            None => r is Err,
            Some(j) => r matches Ok((rest, _)) && rest@ == input@.subrange(j, input@.len() as int),
        },
{
    let cs = str_chars(input);
    match blank_lines_exec(&cs, 0) {
        None => Err(ParseError),
        Some(j) => Ok((string_of_range(&cs, j, cs.len()), ())),
    }
}

/// The commands of a whole VM file.
pub fn commands(input: &str) -> (r: Result<(String, Vec<VMCommand>), ParseError>)
    ensures
        match parse_commands(input@) {
            None => r is Err,
            Some(cmds) => r matches Ok((rest, v)) && rest@.len() == 0 && commands_of(v@) == cmds,
        },
{
    let cs = str_chars(input);
    let n = cs.len();
    let i0 = match blank_lines_exec(&cs, 0) {
        Some(j) => j,
        None => 0,
    };
    let (first, k) = match command_exec(&cs, i0) {
        None => {
            return Err(ParseError);
        },
        Some(p) => p,
    };
    let mut v: Vec<VMCommand> = Vec::new();
    v.push(first);
    let ghost c0 = v@[0]@;
    let mut i = k;
    loop
        invariant
            0 < i <= n,
            n == cs@.len(),
            cs@ == input@,
            v@.len() >= 1,
            v@[0]@ == c0,
            ({
                let (rest, e) = more_commands(cs@, k as int);
                let (rest2, e2) = more_commands(cs@, i as int);
                &&& e == e2
                &&& rest == commands_of(v@).skip(1) + rest2
            }),
        ensures
            ({
                let (rest, e) = more_commands(cs@, k as int);
                &&& e == i
                &&& rest == commands_of(v@).skip(1)
            }),
            v@.len() >= 1,
            v@[0]@ == c0,
            i <= n,
        decreases n - i,
    {
        let j = match blank_lines_exec(&cs, i) {
            None => {
                assert(commands_of(v@).skip(1) + Seq::<Command>::empty() == commands_of(v@).skip(1));
                break;
            },
            Some(j) => j,
        };
        let (c, next) = match command_exec(&cs, j) {
            None => {
                assert(commands_of(v@).skip(1) + Seq::<Command>::empty() == commands_of(v@).skip(1));
                break;
            },
            Some(p) => p,
        };
        let ghost before = v@;
        v.push(c);
        proof {
            let (rest3, e3) = more_commands(cs@, next as int);
            assert(commands_of(v@) =~= commands_of(before).push(c@));
            assert(commands_of(v@).skip(1) =~= commands_of(before).skip(1).push(c@));
            assert(commands_of(before).skip(1) + (seq![c@] + rest3) =~= commands_of(v@).skip(1) + rest3);
        }
        i = next;
    }
    let e2 = match blank_lines_exec(&cs, i) {
        Some(j) => j,
        None => i,
    };
    if e2 == n {
        proof {
            assert(commands_of(v@) =~= seq![c0] + commands_of(v@).skip(1));
        }
        Ok((String::new(), v))
    } else {
        Err(ParseError)
    }
}

// ---------------------------------------------------------------- reading back a command's text

/// A name that a VM file can hold: one or more ASCII letters, digits, '_' and '.'.
pub open spec fn is_vm_name(name: Seq<char>) -> bool {
    &&& name.len() > 0
    &&& forall|i: int| 0 <= i < name.len() ==> in_class(#[trigger] name[i], CharClass::Identifier)
}

/// The names in a command are names that a VM file can hold.
pub open spec fn command_names_ok(c: Command) -> bool {
    match c {
        Command::Label(name) => is_vm_name(name),
        Command::Goto(label) => is_vm_name(label),
        Command::IfGoto(label) => is_vm_name(label),
        Command::Function(name, _) => is_vm_name(name),
        Command::Call(name, _) => is_vm_name(name),
        _ => true,
    }
}

/// The decimal text of a word at the end of `s` reads back as the word.
proof fn lemma_word_at_text(s: Seq<char>, i: int, v: Word)
    requires
        0 <= i <= s.len(),
        s.subrange(i, s.len() as int) == int_text(v as int),
    ensures
        word_at(s, i) == Some((v, s.len() as int)),
        s[i] == '-' || ('0' <= s[i] <= '9'),
{
    let n = s.len() as int;
    if v < 0 {
        let m = (-(v as int)) as nat;
        lemma_digits_value(m);
        let t = nat_digits(m);
        assert(int_text(v as int) == seq!['-'] + t);
        assert(s.subrange(i, n)[0] == s[i]);
        assert(s[i] == '-');
        assert forall|j: int| i + 1 <= j < n implies in_class(#[trigger] s[j], CharClass::Digit) by {
            assert(s.subrange(i, n)[j - i] == s[j]);
            assert((seq!['-'] + t)[j - i] == t[j - i - 1]);
            assert('0' <= t[j - i - 1] <= '9');
        }
        lemma_run_until(s, i + 1, n, n, CharClass::Digit);
        assert(s.subrange(i + 1, n) =~= t) by {
            assert forall|j: int| 0 <= j < t.len() implies s.subrange(i + 1, n)[j] == t[j] by {
                assert(s.subrange(i, n)[j + 1] == s[i + 1 + j]);
            }
        }
    } else {
        let m = v as nat;
        lemma_digits_value(m);
        let t = nat_digits(m);
        assert(s.subrange(i, n) == t);
        assert forall|j: int| i <= j < n implies in_class(#[trigger] s[j], CharClass::Digit) by {
            assert(s.subrange(i, n)[j - i] == s[j]);
        }
        assert(s.subrange(i, n)[0] == s[i]);
        lemma_run_until(s, i, n, n, CharClass::Digit);
    }
}

/// One space at `i` followed by a character that is no space.
proof fn lemma_one_space(s: Seq<char>, i: int)
    requires
        0 <= i,
        i + 1 < s.len(),
        s[i] == ' ',
        s[i + 1] != ' ' && s[i + 1] != '\t',
    ensures
        spaces1(s, i) == Some(i + 1),
{
    lemma_run_until(s, i, i + 1, s.len() as int, CharClass::SpaceTab);
}

/// A text that starts with neither `push` nor `pop`.
proof fn lemma_not_push_pop(s: Seq<char>)
    requires
        s.len() > 0,
        s[0] != 'p',
    ensures
        push_at(s, 0) is None,
        pop_at(s, 0) is None,
{
    reveal_strlit("push");
    reveal_strlit("pop");
    lemma_no_match(s, 0, "push"@, 0);
    lemma_no_match(s, 0, "pop"@, 0);
}

/// A text that does not start with `keyword`, by its first character or its length.
proof fn lemma_not_keyword(s: Seq<char>, keyword: Seq<char>)
    requires
        (s.len() > 0 && keyword.len() > 0 && s[0] != keyword[0]) || s.len() < keyword.len(),
    ensures
        one_arg_at(s, 0, keyword) is None,
        two_args_at(s, 0, keyword) is None,
{
    if s.len() >= keyword.len() {
        lemma_no_match(s, 0, keyword, 0);
    }
}

/// The text of a segment that can be pushed from starts with a lower-case letter and has
/// at least four characters.
proof fn lemma_push_segment_shape(segment: PushSegment)
    ensures
        push_segment_text(segment).len() >= 4,
        'a' <= push_segment_text(segment)[0] <= 'z',
{
    reveal_strlit("constant");
    reveal_strlit("static");
    reveal_strlit("local");
    reveal_strlit("argument");
    reveal_strlit("this");
    reveal_strlit("that");
    reveal_strlit("temp");
    reveal_strlit("pointer");
}

/// The text of a segment that can be popped into starts with a lower-case letter and has
/// at least four characters.
proof fn lemma_pop_segment_shape(segment: PopSegment)
    ensures
        pop_segment_text(segment).len() >= 4,
        'a' <= pop_segment_text(segment)[0] <= 'z',
{
    reveal_strlit("static");
    reveal_strlit("local");
    reveal_strlit("argument");
    reveal_strlit("this");
    reveal_strlit("that");
    reveal_strlit("temp");
    reveal_strlit("pointer");
}

proof fn lemma_push_segment_text(a: Seq<char>, segment: PushSegment, b: Seq<char>)
    ensures
        push_segment_at(a + push_segment_text(segment) + b, a.len() as int) == Some(
            (segment, (a.len() + push_segment_text(segment).len()) as int),
        ),
{
    reveal_strlit("constant");
    reveal_strlit("static");
    reveal_strlit("local");
    reveal_strlit("argument");
    reveal_strlit("this");
    reveal_strlit("that");
    reveal_strlit("temp");
    reveal_strlit("pointer");
    let s = a + push_segment_text(segment) + b;
    let i = a.len() as int;
    lemma_match(a, push_segment_text(segment), b);
    match segment {
        PushSegment::Constant => {},
        PushSegment::Static => {
            lemma_no_match(s, i, "constant"@, 0);
        },
        PushSegment::Local => {
            lemma_no_match(s, i, "constant"@, 0);
            lemma_no_match(s, i, "static"@, 0);
        },
        PushSegment::Argument => {
            lemma_no_match(s, i, "constant"@, 0);
            lemma_no_match(s, i, "static"@, 0);
            lemma_no_match(s, i, "local"@, 0);
        },
        PushSegment::This => {
            lemma_no_match(s, i, "constant"@, 0);
            lemma_no_match(s, i, "static"@, 0);
            lemma_no_match(s, i, "local"@, 0);
            lemma_no_match(s, i, "argument"@, 0);
        },
        PushSegment::That => {
            lemma_no_match(s, i, "constant"@, 0);
            lemma_no_match(s, i, "static"@, 0);
            lemma_no_match(s, i, "local"@, 0);
            lemma_no_match(s, i, "argument"@, 0);
            lemma_no_match(s, i, "this"@, 2);
        },
        PushSegment::Temp => {
            lemma_no_match(s, i, "constant"@, 0);
            lemma_no_match(s, i, "static"@, 0);
            lemma_no_match(s, i, "local"@, 0);
            lemma_no_match(s, i, "argument"@, 0);
            lemma_no_match(s, i, "this"@, 1);
            lemma_no_match(s, i, "that"@, 1);
        },
        PushSegment::Pointer => {
            lemma_no_match(s, i, "constant"@, 0);
            lemma_no_match(s, i, "static"@, 0);
            lemma_no_match(s, i, "local"@, 0);
            lemma_no_match(s, i, "argument"@, 0);
            lemma_no_match(s, i, "this"@, 0);
            lemma_no_match(s, i, "that"@, 0);
            lemma_no_match(s, i, "temp"@, 0);
        },
    }
}

proof fn lemma_pop_segment_text(a: Seq<char>, segment: PopSegment, b: Seq<char>)
    ensures
        pop_segment_at(a + pop_segment_text(segment) + b, a.len() as int) == Some(
            (segment, (a.len() + pop_segment_text(segment).len()) as int),
        ),
{
    reveal_strlit("static");
    reveal_strlit("local");
    reveal_strlit("argument");
    reveal_strlit("this");
    reveal_strlit("that");
    reveal_strlit("temp");
    reveal_strlit("pointer");
    let s = a + pop_segment_text(segment) + b;
    let i = a.len() as int;
    lemma_match(a, pop_segment_text(segment), b);
    match segment {
        PopSegment::Static => {},
        PopSegment::Local => {
            lemma_no_match(s, i, "static"@, 0);
        },
        PopSegment::Argument => {
            lemma_no_match(s, i, "static"@, 0);
            lemma_no_match(s, i, "local"@, 0);
        },
        PopSegment::This => {
            lemma_no_match(s, i, "static"@, 0);
            lemma_no_match(s, i, "local"@, 0);
            lemma_no_match(s, i, "argument"@, 0);
        },
        PopSegment::That => {
            lemma_no_match(s, i, "static"@, 0);
            lemma_no_match(s, i, "local"@, 0);
            lemma_no_match(s, i, "argument"@, 0);
            lemma_no_match(s, i, "this"@, 2);
        },
        PopSegment::Temp => {
            lemma_no_match(s, i, "static"@, 0);
            lemma_no_match(s, i, "local"@, 0);
            lemma_no_match(s, i, "argument"@, 0);
            lemma_no_match(s, i, "this"@, 1);
            lemma_no_match(s, i, "that"@, 1);
        },
        PopSegment::Pointer => {
            lemma_no_match(s, i, "static"@, 0);
            lemma_no_match(s, i, "local"@, 0);
            lemma_no_match(s, i, "argument"@, 0);
            lemma_no_match(s, i, "this"@, 0);
            lemma_no_match(s, i, "that"@, 0);
            lemma_no_match(s, i, "temp"@, 0);
        },
    }
}

proof fn lemma_bare_text_parses(c: Command)
    requires
        c is Add || c is Sub || c is Neg || c is Eq || c is Gt || c is Lt || c is And || c is Or || c is Not
            || c is Return,
    ensures
        command_body_at(command_text(c), 0) == Some((c, command_text(c).len() as int)),
{
    reveal_strlit("add");
    reveal_strlit("sub");
    reveal_strlit("neg");
    reveal_strlit("eq");
    reveal_strlit("gt");
    reveal_strlit("lt");
    reveal_strlit("and");
    reveal_strlit("or");
    reveal_strlit("not");
    reveal_strlit("return");
    reveal_strlit("label");
    reveal_strlit("goto");
    reveal_strlit("if-goto");
    reveal_strlit("function");
    reveal_strlit("call");
    let s = command_text(c);
    lemma_not_push_pop(s);
    lemma_not_keyword(s, "label"@);
    lemma_not_keyword(s, "goto"@);
    lemma_not_keyword(s, "if-goto"@);
    lemma_not_keyword(s, "function"@);
    lemma_not_keyword(s, "call"@);
    lemma_match_whole(s);
    match c {
        Command::Add => {  },
        Command::Sub => { lemma_no_match(s, 0, "add"@, 0); },
        Command::Neg => { lemma_no_match(s, 0, "add"@, 0); lemma_no_match(s, 0, "sub"@, 0); },
        Command::Eq => { lemma_no_match(s, 0, "add"@, 0); lemma_no_match(s, 0, "sub"@, 0); lemma_no_match(s, 0, "neg"@, 0); },
        Command::Gt => { lemma_no_match(s, 0, "add"@, 0); lemma_no_match(s, 0, "sub"@, 0); lemma_no_match(s, 0, "neg"@, 0); lemma_no_match(s, 0, "eq"@, 0); },
        Command::Lt => { lemma_no_match(s, 0, "add"@, 0); lemma_no_match(s, 0, "sub"@, 0); lemma_no_match(s, 0, "neg"@, 0); lemma_no_match(s, 0, "eq"@, 0); lemma_no_match(s, 0, "gt"@, 0); },
        Command::And => { lemma_no_match(s, 0, "add"@, 1); lemma_no_match(s, 0, "sub"@, 0); lemma_no_match(s, 0, "neg"@, 0); lemma_no_match(s, 0, "eq"@, 0); lemma_no_match(s, 0, "gt"@, 0); lemma_no_match(s, 0, "lt"@, 0); },
        Command::Or => { lemma_no_match(s, 0, "add"@, 0); lemma_no_match(s, 0, "sub"@, 0); lemma_no_match(s, 0, "neg"@, 0); lemma_no_match(s, 0, "eq"@, 0); lemma_no_match(s, 0, "gt"@, 0); lemma_no_match(s, 0, "lt"@, 0); lemma_no_match(s, 0, "and"@, 0); },
        Command::Not => { lemma_no_match(s, 0, "add"@, 0); lemma_no_match(s, 0, "sub"@, 0); lemma_no_match(s, 0, "neg"@, 1); lemma_no_match(s, 0, "eq"@, 0); lemma_no_match(s, 0, "gt"@, 0); lemma_no_match(s, 0, "lt"@, 0); lemma_no_match(s, 0, "and"@, 0); lemma_no_match(s, 0, "or"@, 0); },
        Command::Return => { lemma_no_match(s, 0, "add"@, 0); lemma_no_match(s, 0, "sub"@, 0); lemma_no_match(s, 0, "neg"@, 0); lemma_no_match(s, 0, "eq"@, 0); lemma_no_match(s, 0, "gt"@, 0); lemma_no_match(s, 0, "lt"@, 0); lemma_no_match(s, 0, "and"@, 0); lemma_no_match(s, 0, "or"@, 0); lemma_no_match(s, 0, "not"@, 0); },
        _ => {},
    }
}

/// `keyword`, a space and a name read back as the keyword with the name.
proof fn lemma_one_arg_text(keyword: Seq<char>, name: Seq<char>)
    requires
        keyword.len() > 0,
        is_vm_name(name),
    ensures
        one_arg_at(keyword + " "@ + name, 0, keyword) == Some(
            ((keyword.len() + 1) as int, (keyword.len() + 1 + name.len()) as int),
        ),
{
    reveal_strlit(" ");
    let s = keyword + " "@ + name;
    let k = keyword.len() as int;
    lemma_match(Seq::empty(), keyword, " "@ + name);
    assert(Seq::<char>::empty() + keyword + (" "@ + name) =~= s);
    assert(s[k] == ' ');
    assert(s[k + 1] == name[0]);
    assert(in_class(name[0], CharClass::Identifier));
    lemma_one_space(s, k);
    assert forall|j: int| k + 1 <= j < s.len() implies in_class(#[trigger] s[j], CharClass::Identifier) by {
        assert(s[j] == name[j - k - 1]);
    }
    lemma_run_until(s, k + 1, s.len() as int, s.len() as int, CharClass::Identifier);
}

/// `keyword`, a name and a count, separated by spaces, read back as the keyword with the
/// name and the count.
proof fn lemma_two_args_text(keyword: Seq<char>, name: Seq<char>, count: Word)
    requires
        keyword.len() > 0,
        is_vm_name(name),
    ensures
        two_args_at(keyword + " "@ + name + " "@ + int_text(count as int), 0, keyword) == Some(
            (
                (keyword.len() + 1) as int,
                (keyword.len() + 1 + name.len()) as int,
                count,
                (keyword + " "@ + name + " "@ + int_text(count as int)).len() as int,
            ),
        ),
{
    reveal_strlit(" ");
    let num = int_text(count as int);
    let s = keyword + " "@ + name + " "@ + num;
    let n = s.len() as int;
    let k = keyword.len() as int;
    let m = k + 1 + name.len();
    lemma_match(Seq::empty(), keyword, " "@ + name + " "@ + num);
    assert(Seq::<char>::empty() + keyword + (" "@ + name + " "@ + num) =~= s);
    assert(s[k] == ' ');
    assert(s[k + 1] == name[0]);
    assert(in_class(name[0], CharClass::Identifier));
    lemma_one_space(s, k);
    assert forall|j: int| k + 1 <= j < m implies in_class(#[trigger] s[j], CharClass::Identifier) by {
        assert(s[j] == name[j - k - 1]);
    }
    assert(s[m] == ' ');
    lemma_run_until(s, k + 1, m, n, CharClass::Identifier);
    assert(s.subrange(m + 1, n) =~= num);
    lemma_word_at_text(s, m + 1, count);
    lemma_one_space(s, m);
}

proof fn lemma_push_text_parses(segment: PushSegment, offset: Word)
    ensures
        command_body_at(command_text(Command::Push(segment, offset)), 0) == Some(
            (Command::Push(segment, offset), command_text(Command::Push(segment, offset)).len() as int),
        ),
{
    reveal_strlit("push ");
    reveal_strlit("push");
    reveal_strlit(" ");
    let seg = push_segment_text(segment);
    let num = int_text(offset as int);
    let s = command_text(Command::Push(segment, offset));
    let n = s.len() as int;
    lemma_push_segment_shape(segment);
    assert(s =~= Seq::<char>::empty() + "push"@ + (" "@ + seg + " "@ + num));
    lemma_match(Seq::empty(), "push"@, " "@ + seg + " "@ + num);
    assert(s[5] == seg[0]);
    lemma_one_space(s, 4);
    assert(s =~= "push "@ + seg + (" "@ + num));
    lemma_push_segment_text("push "@, segment, " "@ + num);
    let k = (5 + seg.len()) as int;
    assert(s[k] == ' ');
    assert(s.subrange(k + 1, n) =~= num);
    lemma_word_at_text(s, k + 1, offset);
    lemma_one_space(s, k);
}

proof fn lemma_pop_text_parses(segment: PopSegment, offset: Word)
    ensures
        command_body_at(command_text(Command::Pop(segment, offset)), 0) == Some(
            (Command::Pop(segment, offset), command_text(Command::Pop(segment, offset)).len() as int),
        ),
{
    reveal_strlit("pop ");
    reveal_strlit("pop");
    reveal_strlit("push");
    reveal_strlit(" ");
    let seg = pop_segment_text(segment);
    let num = int_text(offset as int);
    let s = command_text(Command::Pop(segment, offset));
    let n = s.len() as int;
    lemma_pop_segment_shape(segment);
    lemma_no_match(s, 0, "push"@, 1);
    assert(s =~= Seq::<char>::empty() + "pop"@ + (" "@ + seg + " "@ + num));
    lemma_match(Seq::empty(), "pop"@, " "@ + seg + " "@ + num);
    assert(s[4] == seg[0]);
    lemma_one_space(s, 3);
    assert(s =~= "pop "@ + seg + (" "@ + num));
    lemma_pop_segment_text("pop "@, segment, " "@ + num);
    let k = (4 + seg.len()) as int;
    assert(s[k] == ' ');
    assert(s.subrange(k + 1, n) =~= num);
    lemma_word_at_text(s, k + 1, offset);
    lemma_one_space(s, k);
}

proof fn lemma_named_text_parses(c: Command)
    requires
        c is Label || c is Goto || c is IfGoto || c is Function || c is Call,
        command_names_ok(c),
    ensures
        command_body_at(command_text(c), 0) == Some((c, command_text(c).len() as int)),
{
    reveal_strlit(" ");
    reveal_strlit("label");
    reveal_strlit("label ");
    reveal_strlit("goto");
    reveal_strlit("goto ");
    reveal_strlit("if-goto");
    reveal_strlit("if-goto ");
    reveal_strlit("function");
    reveal_strlit("function ");
    reveal_strlit("call");
    reveal_strlit("call ");
    let s = command_text(c);
    let n = s.len() as int;
    match c {
        Command::Label(name) => {
            assert(s =~= "label"@ + " "@ + name);
            lemma_not_push_pop(s);
            lemma_one_arg_text("label"@, name);
            assert(s.subrange(6, n) =~= name);
        },
        Command::Goto(label) => {
            assert(s =~= "goto"@ + " "@ + label);
            lemma_not_push_pop(s);
            lemma_not_keyword(s, "label"@);
            lemma_one_arg_text("goto"@, label);
            assert(s.subrange(5, n) =~= label);
        },
        Command::IfGoto(label) => {
            assert(s =~= "if-goto"@ + " "@ + label);
            lemma_not_push_pop(s);
            lemma_not_keyword(s, "label"@);
            lemma_not_keyword(s, "goto"@);
            lemma_one_arg_text("if-goto"@, label);
            assert(s.subrange(8, n) =~= label);
        },
        Command::Function(name, count) => {
            assert(s =~= "function"@ + " "@ + name + " "@ + int_text(count as int));
            lemma_not_push_pop(s);
            lemma_not_keyword(s, "label"@);
            lemma_not_keyword(s, "goto"@);
            lemma_not_keyword(s, "if-goto"@);
            lemma_two_args_text("function"@, name, count);
            assert(s.subrange(9, (9 + name.len()) as int) =~= name);
        },
        Command::Call(name, count) => {
            assert(s =~= "call"@ + " "@ + name + " "@ + int_text(count as int));
            lemma_not_push_pop(s);
            lemma_not_keyword(s, "label"@);
            lemma_not_keyword(s, "goto"@);
            lemma_not_keyword(s, "if-goto"@);
            lemma_not_keyword(s, "function"@);
            lemma_two_args_text("call"@, name, count);
            assert(s.subrange(5, (5 + name.len()) as int) =~= name);
        },
        _ => {},
    }
}

/// The text of a command starts with a lower-case letter.
proof fn lemma_text_starts_with_letter(c: Command)
    ensures
        command_text(c).len() > 0,
        'a' <= command_text(c)[0] <= 'z',
{
    reveal_strlit("add");
    reveal_strlit("push ");
    reveal_strlit("pop ");
    reveal_strlit("sub");
    reveal_strlit("neg");
    reveal_strlit("eq");
    reveal_strlit("gt");
    reveal_strlit("lt");
    reveal_strlit("and");
    reveal_strlit("or");
    reveal_strlit("not");
    reveal_strlit("label ");
    reveal_strlit("goto ");
    reveal_strlit("if-goto ");
    reveal_strlit("function ");
    reveal_strlit("call ");
    reveal_strlit("return");
}

/// Reading the text of a command gives back the command, where the command's names are
/// names that a VM file can hold; a file that holds only that text holds only that command.
pub proof fn lemma_command_text_parses(c: Command)
    requires
        command_names_ok(c),
    ensures
        command_at(command_text(c), 0) == Some((c, command_text(c).len() as int)),
        parse_commands(command_text(c)) == Some(seq![c]),
{
    let s = command_text(c);
    let n = s.len() as int;
    match c {
        Command::Push(segment, offset) => lemma_push_text_parses(segment, offset),
        Command::Pop(segment, offset) => lemma_pop_text_parses(segment, offset),
        Command::Label(_) => lemma_named_text_parses(c),
        Command::Goto(_) => lemma_named_text_parses(c),
        Command::IfGoto(_) => lemma_named_text_parses(c),
        Command::Function(_, _) => lemma_named_text_parses(c),
        Command::Call(_, _) => lemma_named_text_parses(c),
        _ => lemma_bare_text_parses(c),
    }
    lemma_text_starts_with_letter(c);
    lemma_run_until(s, 0, 0, n, CharClass::SpaceTab);
    lemma_run_until(s, n, n, n, CharClass::SpaceTab);
    reveal_strlit("//");
    lemma_no_match(s, 0, "//"@, 0);
    assert(blank_line(s, 0) is None);
    assert(blank_lines(s, 0) is None);
    assert(blank_line(s, n) is None);
    assert(more_commands(s, n) == (Seq::<Command>::empty(), n));
    assert(seq![c] + Seq::<Command>::empty() =~= seq![c]);
}

} // verus!

use vstd::prelude::*;
use vstd::wrapping::i16_specs;

use crate::hardware::{
    alu, flag, jump_holds, c_instruction_bits, comp_mnemonic, dest_text, dst_code, instruction_text, is_c_instruction, jump_code, jump_of_code,
    jump_text, DestinationRegisters, Instruction, JumpCondition, UWord, Word, MEM_SIZE,
};
use crate::maps::{symbol_entries, SymbolTable};
use crate::scan::{
    lemma_no_match, lemma_run_until, chars_eq_str, in_class, is_unicode_whitespace, is_whitespace_char, lemma_run_end, matches_at, matches_str_at, run_end, scan,
    strip_whitespace, strip_whitespace_range, string_of_range, CharClass,
};
use crate::text::{digit_char, nat_digits, str_chars};
use crate::vm::{decimal_value, lemma_digits_value};

verus! {

#[derive(Clone, Debug, PartialEq, Eq)]
pub enum AssemblyInstruction {
    Instruction(Instruction),
    Label(String),
    AtIdentifierInstruction(String),
    AtNumberInstruction(i16),
}

/// An assembly line as a mathematical value.
pub enum AsmItem {
    Instr(UWord),
    Label(Seq<char>),
    AtIdentifier(Seq<char>),
    AtNumber(Word),
}

impl View for AssemblyInstruction {
    type V = AsmItem;

    open spec fn view(&self) -> AsmItem {
        match self {
            AssemblyInstruction::Instruction(i) => AsmItem::Instr(i.bits()),
            AssemblyInstruction::Label(s) => AsmItem::Label(s@),
            AssemblyInstruction::AtIdentifierInstruction(s) => AsmItem::AtIdentifier(s@),
            AssemblyInstruction::AtNumberInstruction(n) => AsmItem::AtNumber(*n),
        }
    }
}

/// The text is not assembly of the accepted form.
#[derive(Clone, Copy, Debug, PartialEq, Eq, Structural)]
pub struct ParseError;

/// The outcome of a parser at a position: what it read and where it stopped, a plain
/// failure (another alternative may be tried), or a fatal failure (none may be tried).
pub enum Parsed<T> {
    Done(T, usize),
    Fail,
    Fatal,
}

/// The destination that a number of A, M and D letters name, each at most once.
pub open spec fn dest_of_counts(a: int, m: int, d: int) -> Option<DestinationRegisters> {
    if a == 1 && m == 0 && d == 0 {
        Some(DestinationRegisters::A)
    } else if a == 1 && m == 1 && d == 0 {
        Some(DestinationRegisters::AM)
    } else if a == 1 && m == 1 && d == 1 {
        Some(DestinationRegisters::AMD)
    } else if a == 0 && m == 1 && d == 0 {
        Some(DestinationRegisters::M)
    } else if a == 0 && m == 1 && d == 1 {
        Some(DestinationRegisters::MD)
    } else if a == 0 && m == 0 && d == 1 {
        Some(DestinationRegisters::D)
    } else if a == 1 && m == 0 && d == 1 {
        Some(DestinationRegisters::AD)
    } else {
        None
    }
}

/// How often `c` occurs in `s[i..j]`.
pub open spec fn count_in(s: Seq<char>, i: int, j: int, c: char) -> int
    decreases j - i,
{
    if i < j {
        (if s[i] == c { 1int } else { 0int }) + count_in(s, i + 1, j, c)
    } else {
        0
    }
}

/// The destination part `dest=` of a C-instruction at `i`: without '=' there is none; the
/// text before the first '=' must start with A, M or D (else the instruction is refused),
/// and it names a destination when it is letters A, M, D (each at most once) and then
/// spaces; otherwise the instruction is read as having no destination.
pub open spec fn dest_step(s: Seq<char>, i: int, e: int) -> Parsed<DestinationRegisters> {
    let q = run_end(s, i, e, CharClass::NotEquals);
    if q >= e {
        Parsed::Done(DestinationRegisters::NoDestination, i as usize)
    } else {
        let l = run_end(s, i, q, CharClass::Amd);
        if l == i {
            Parsed::Fatal
        } else if run_end(s, l, q, CharClass::SpaceTab) != q {
            Parsed::Done(DestinationRegisters::NoDestination, i as usize)
        } else {
            match dest_of_counts(count_in(s, i, l, 'A'), count_in(s, i, l, 'M'), count_in(s, i, l, 'D')) {
                Some(d) => Parsed::Done(d, (q + 1) as usize),
                None => Parsed::Done(DestinationRegisters::NoDestination, i as usize),
            }
        }
    }
}

/// The computation bits (bits 6 to 14) that a computation mnemonic names.
pub open spec fn comp_code(t: Seq<char>) -> Option<UWord> {
    if t == "0"@ { Some(0x01AA) }
    else if t == "1"@ { Some(0x01BF) }
    else if t == "-1"@ { Some(0x01BA) }
    else if t == "D"@ { Some(0x018C) }
    else if t == "A"@ { Some(0x01B0) }
    else if t == "M"@ { Some(0x01F0) }
    else if t == "!D"@ { Some(0x018D) }
    else if t == "!A"@ { Some(0x01B1) }
    else if t == "!M"@ { Some(0x01F1) }
    else if t == "-D"@ { Some(0x018F) }
    else if t == "-A"@ { Some(0x01B3) }
    else if t == "-M"@ { Some(0x01F3) }
    else if t == "D+1"@ { Some(0x019F) }
    else if t == "A+1"@ { Some(0x01B7) }
    else if t == "M+1"@ { Some(0x01F7) }
    else if t == "D-1"@ { Some(0x018E) }
    else if t == "A-1"@ { Some(0x01B2) }
    else if t == "M-1"@ { Some(0x01F2) }
    else if t == "D+A"@ { Some(0x0182) }
    else if t == "A+D"@ { Some(0x0182) }
    else if t == "D+M"@ { Some(0x01C2) }
    else if t == "M+D"@ { Some(0x01C2) }
    else if t == "D-A"@ { Some(0x0193) }
    else if t == "A-D"@ { Some(0x0187) }
    else if t == "D-M"@ { Some(0x01D3) }
    else if t == "M-D"@ { Some(0x01C7) }
    else if t == "D&A"@ { Some(0x0180) }
    else if t == "A&D"@ { Some(0x0180) }
    else if t == "D&M"@ { Some(0x01C0) }
    else if t == "M&D"@ { Some(0x01C0) }
    else if t == "D|A"@ { Some(0x0195) }
    else if t == "A|D"@ { Some(0x0195) }
    else if t == "D|M"@ { Some(0x01D5) }
    else if t == "M|D"@ { Some(0x01D5) }
    else { None }
}

/// The computation part of a C-instruction at `i`: the text up to ';', '/' or the end,
/// which, whitespace aside, must be a computation mnemonic.
pub open spec fn calc_step(s: Seq<char>, i: int, e: int) -> Parsed<UWord> {
    let q = run_end(s, i, e, CharClass::NotCalcEnd);
    if q == i {
        Parsed::Fail
    } else {
        match comp_code(strip_whitespace(s.subrange(i, q))) {
            Some(c) => Parsed::Done(c, q as usize),
            None => Parsed::Fail,
        }
    }
}

/// The optional jump part `;JXX` of a C-instruction at `i`, with spaces allowed after ';'.
pub open spec fn jump_step(s: Seq<char>, i: int, e: int) -> (JumpCondition, int) {
    if 0 <= i < e && s[i] == ';' {
        let j = run_end(s, i + 1, e, CharClass::SpaceTab);
        if matches_at(s, j, e, "JEQ"@) {
            (JumpCondition::JEQ, j + 3)
        } else if matches_at(s, j, e, "JGE"@) {
            (JumpCondition::JGE, j + 3)
        } else if matches_at(s, j, e, "JGT"@) {
            (JumpCondition::JGT, j + 3)
        } else if matches_at(s, j, e, "JLE"@) {
            (JumpCondition::JLE, j + 3)
        } else if matches_at(s, j, e, "JLT"@) {
            (JumpCondition::JLT, j + 3)
        } else if matches_at(s, j, e, "JMP"@) {
            (JumpCondition::JMP, j + 3)
        } else if matches_at(s, j, e, "JNE"@) {
            (JumpCondition::JNE, j + 3)
        } else {
            (JumpCondition::NoJump, i)
        }
    } else {
        (JumpCondition::NoJump, i)
    }
}

/// The value of the decimal digits `s[i..j]`.
pub open spec fn digits_value(s: Seq<char>, i: int, j: int) -> int
    decreases j - i,
{
    if j <= i {
        0
    } else {
        digits_value(s, i, j - 1) * 10 + (s[j - 1] as int - '0' as int)
    }
}

/// A decimal word at `i`: an optional sign and at least one digit, whose value must be a
/// word.
pub open spec fn number_step(s: Seq<char>, i: int, e: int) -> Option<(Word, int)> {
    let neg = 0 <= i < e && s[i] == '-';
    let plus = 0 <= i < e && s[i] == '+';
    let i1 = if neg || plus { i + 1 } else { i };
    let d = run_end(s, i1, e, CharClass::Digit);
    if d == i1 {
        None
    } else {
        let v = digits_value(s, i1, d);
        let sv = if neg { -v } else { v };
        if i16::MIN <= sv <= i16::MAX {
            Some((sv as Word, d))
        } else {
            None
        }
    }
}

/// An A-instruction at `i`: '@' and a non-negative number, or '@' and an identifier.
pub open spec fn a_step(s: Seq<char>, i: int, e: int) -> Parsed<AsmItem> {
    if 0 <= i < e && s[i] == '@' {
        let num = number_step(s, i + 1, e);
        if num is Some && num.unwrap().0 >= 0 {
            Parsed::Done(AsmItem::AtNumber(num.unwrap().0), num.unwrap().1 as usize)
        } else {
            let k = run_end(s, i + 1, e, CharClass::Identifier);
            if k > i + 1 {
                Parsed::Done(AsmItem::AtIdentifier(s.subrange(i + 1, k)), k as usize)
            } else {
                Parsed::Fail
            }
        }
    } else {
        Parsed::Fail
    }
}

/// A label `(name)` at `i`.
pub open spec fn label_step(s: Seq<char>, i: int, e: int) -> Parsed<AsmItem> {
    if 0 <= i < e && s[i] == '(' {
        let k = run_end(s, i + 1, e, CharClass::Identifier);
        if k > i + 1 && k < e && s[k] == ')' {
            Parsed::Done(AsmItem::Label(s.subrange(i + 1, k)), (k + 1) as usize)
        } else {
            Parsed::Fail
        }
    } else {
        Parsed::Fail
    }
}

/// A C-instruction `dest=comp;jump` at `i`.
pub open spec fn c_step(s: Seq<char>, i: int, e: int) -> Parsed<AsmItem> {
    match dest_step(s, i, e) {
        Parsed::Fatal => Parsed::Fatal,
        Parsed::Fail => Parsed::Fail,
        Parsed::Done(d, i1) => match calc_step(s, i1 as int, e) {
            Parsed::Done(c, i2) => {
                let (j, i3) = jump_step(s, i2 as int, e);
                Parsed::Done(AsmItem::Instr(c_instruction_bits(d, c, j)), i3 as usize)
            },
            _ => Parsed::Fail,
        },
    }
}

/// An instruction at `i`: a C-instruction, else an A-instruction, else a label.
pub open spec fn instruction_step(s: Seq<char>, i: int, e: int) -> Parsed<AsmItem> {
    match c_step(s, i, e) {
        Parsed::Fatal => Parsed::Fatal,
        Parsed::Done(x, n) => Parsed::Done(x, n),
        Parsed::Fail => match a_step(s, i, e) {
            Parsed::Done(x, n) => Parsed::Done(x, n),
            _ => label_step(s, i, e),
        },
    }
}

/// One line `s[i..e]`: an optional `//` comment (a single '/' is refused), and either
/// only spaces and tabs (`Some(None)`) or one instruction with spaces and tabs around it.
pub open spec fn line_step(s: Seq<char>, i: int, e: int) -> Option<Option<AsmItem>> {
    let p = run_end(s, i, e, CharClass::NotSlash);
    if p < e && !(p + 1 < e && s[p + 1] == '/') {
        None
    } else {
        let j = run_end(s, i, p, CharClass::SpaceTab);
        match instruction_step(s, j, p) {
            Parsed::Fatal => None,
            Parsed::Done(x, k) => if run_end(s, k as int, p, CharClass::SpaceTab) == p {
                Some(Some(x))
            } else {
                None
            },
            Parsed::Fail => if j == p {
                Some(None)
            } else {
                None
            },
        }
    }
}

/// Whether a line ending at `e` ends in a lone '\r', which is refused.
pub open spec fn lone_cr_at(s: Seq<char>, e: int) -> bool {
    0 <= e < s.len() && s[e] == '\r' && !(e + 1 < s.len() && s[e + 1] == '\n')
}

/// Where the line after the one that ends at `e` starts ("\n" or "\r\n" ends a line).
pub open spec fn next_line_start(s: Seq<char>, e: int) -> int {
    if s[e] == '\n' { e + 1 } else { e + 2 }
}

/// The instructions of the lines from `i` on; `None` when a line is refused.
pub open spec fn program_from(s: Seq<char>, i: int) -> Option<Seq<AsmItem>>
    decreases s.len() + 1 - i,
{
    if i < 0 || i > s.len() {
        Some(Seq::empty())
    } else {
        let e = run_end(s, i, s.len() as int, CharClass::NotLineBreak);
        if e < i || lone_cr_at(s, e) {
            None
        } else {
            match line_step(s, i, e) {
                None => None,
                Some(item) => {
                    let here: Seq<AsmItem> = match item {
                        Some(x) => seq![x],
                        None => Seq::empty(),
                    };
                    if e >= s.len() {
                        Some(here)
                    } else {
                        match program_from(s, next_line_start(s, e)) {
                            None => None,
                            Some(r) => Some(here + r),
                        }
                    }
                },
            }
        }
    }
}

/// The instructions of an assembly text; `None` when a line is refused.
pub open spec fn parse_program(s: Seq<char>) -> Option<Seq<AsmItem>> {
    program_from(s, 0)
}

/// The values of a sequence of assembly instructions.
pub open spec fn items_of(v: Seq<AssemblyInstruction>) -> Seq<AsmItem> {
    v.map_values(|x: AssemblyInstruction| x@)
}

/// Whether an outcome of a parser agrees with what a spec parser says.
pub open spec fn same_outcome(p: Parsed<AssemblyInstruction>, q: Parsed<AsmItem>) -> bool {
    match (p, q) {
        (Parsed::Done(x, n), Parsed::Done(y, m)) => x@ == y && n == m,
        (Parsed::Fail, Parsed::Fail) => true,
        (Parsed::Fatal, Parsed::Fatal) => true,
        _ => false,
    }
}

/// How `compare_no_whitespace` compares.
#[derive(PartialEq, Eq, Debug, Clone, Copy, Structural)]
pub enum CompareResult {
    /// Comparison was successful
    Matched,
    /// We need more data to be sure
    Incomplete,
    /// Comparison failed
    Error,
}

/// Compares `actual`, whitespace aside, with `expected`: equal, a proper prefix of it, or
/// neither.
pub open spec fn compare_spec(actual: Seq<char>, expected: Seq<char>) -> CompareResult {
    let a = strip_whitespace(actual);
    if a.len() <= expected.len() && a == expected.subrange(0, a.len() as int) {
        if a.len() == expected.len() {
            CompareResult::Matched
        } else {
            CompareResult::Incomplete
        }
    } else {
        CompareResult::Error
    }
}

pub fn compare_no_whitespace(actual: &str, expected: &str) -> (r: CompareResult)
    ensures
        r == compare_spec(actual@, expected@),
{
    let a = str_chars(actual);
    let x = str_chars(expected);
    let mut k: usize = 0;
    let mut i: usize = 0;
    while i < a.len()
        invariant
            a@ == actual@,
            x@ == expected@,
            i <= a@.len(),
            k == strip_whitespace(a@.subrange(0, i as int)).len(),
            k <= x@.len(),
            strip_whitespace(a@.subrange(0, i as int)) == x@.subrange(0, k as int),
        decreases a@.len() - i,
    {
        let c = a[i];
        assert(a@.subrange(0, i + 1).drop_last() == a@.subrange(0, i as int));
        if is_whitespace_char(c) {
            i = i + 1;
            continue;
        }
        if k >= x.len() || c != x[k] {
            proof {
                lemma_strip_prefix(a@, (i + 1) as int, a@.len() as int);
                assert(a@ == a@.subrange(0, a@.len() as int));
                let p = strip_whitespace(a@.subrange(0, i + 1));
                assert(p.len() == k + 1);
                assert(strip_whitespace(actual@).subrange(0, k + 1) == p);
                if strip_whitespace(actual@).len() <= expected@.len() {
                    assert(p[k as int] == c);
                    assert(strip_whitespace(actual@)[k as int] == c);
                    if k < x@.len() {
                        assert(expected@.subrange(0, strip_whitespace(actual@).len() as int)[k as int]
                            == x@[k as int]);
                    }
                }
            }
            return CompareResult::Error;
        }
        k = k + 1;
        i = i + 1;
        assert(x@.subrange(0, k as int) == x@.subrange(0, k - 1).push(x@[k - 1]));
    }
    assert(a@.subrange(0, a@.len() as int) == a@);
    if k == x.len() {
        assert(x@.subrange(0, k as int) == x@);
        CompareResult::Matched
    } else {
        CompareResult::Incomplete
    }
}

/// The whitespace-free characters of a prefix are a prefix of those of the whole.
pub proof fn lemma_strip_prefix(s: Seq<char>, i: int, j: int)
    requires
        0 <= i <= j <= s.len(),
    ensures
        strip_whitespace(s.subrange(0, i)).len() <= strip_whitespace(s.subrange(0, j)).len(),
        strip_whitespace(s.subrange(0, j)).subrange(0, strip_whitespace(s.subrange(0, i)).len() as int)
            == strip_whitespace(s.subrange(0, i)),
    decreases j - i,
{
    if i < j {
        lemma_strip_prefix(s, i, j - 1);
        assert(s.subrange(0, j).drop_last() == s.subrange(0, j - 1));
        let a = strip_whitespace(s.subrange(0, i));
        let b = strip_whitespace(s.subrange(0, j - 1));
        let c = strip_whitespace(s.subrange(0, j));
        if !is_unicode_whitespace(s[j - 1]) {
            assert(c == b.push(s[j - 1]));
            assert(c.subrange(0, a.len() as int) == b.subrange(0, a.len() as int));
        }
    } else {
        assert(strip_whitespace(s.subrange(0, j)).subrange(0, strip_whitespace(s.subrange(0, j)).len() as int)
            == strip_whitespace(s.subrange(0, j)));
    }
}

/// Reads the whole of `input` when it equals `tag` whitespace aside; the rest is then
/// empty and the text read is `input`.
pub fn tag_no_whitespace<'a>(tag: &str, input: &'a str) -> (r: Result<(&'a str, &'a str), ParseError>)
    ensures
        r is Ok <==> compare_spec(input@, tag@) == CompareResult::Matched,
        r matches Ok((rest, read)) ==> rest@.len() == 0 && read@ == input@,
{
    match compare_no_whitespace(input, tag) {
        CompareResult::Matched => {
            let rest: &'a str = "";
            proof {
                reveal_strlit("");
            }
            Ok((rest, input))
        },
        _ => Err(ParseError),
    }
}


fn dest_of_counts_exec(a: u32, m: u32, d: u32) -> (r: Option<DestinationRegisters>)
    ensures
        r == dest_of_counts(a as int, m as int, d as int),
{
    if a == 1 && m == 0 && d == 0 {
        Some(DestinationRegisters::A)
    } else if a == 1 && m == 1 && d == 0 {
        Some(DestinationRegisters::AM)
    } else if a == 1 && m == 1 && d == 1 {
        Some(DestinationRegisters::AMD)
    } else if a == 0 && m == 1 && d == 0 {
        Some(DestinationRegisters::M)
    } else if a == 0 && m == 1 && d == 1 {
        Some(DestinationRegisters::MD)
    } else if a == 0 && m == 0 && d == 1 {
        Some(DestinationRegisters::D)
    } else if a == 1 && m == 0 && d == 1 {
        Some(DestinationRegisters::AD)
    } else {
        None
    }
}

/// Whether `count_in` can be computed with a 32-bit count: a count over a range of letters
/// is below 2^16 once more than that many letters would exceed any destination anyway.
fn count_letters(cs: &Vec<char>, i: usize, l: usize, c: char) -> (r: u32)
    requires
        i <= l <= cs@.len(),
        forall|x: int| i <= x < l ==> in_class(#[trigger] cs@[x], CharClass::Amd),
    ensures
        r == count_in(cs@, i as int, l as int, c) || (r == 2 && count_in(cs@, i as int, l as int, c) >= 2),
{
    let mut n: u32 = 0;
    let mut k = i;
    while k < l
        invariant
            i <= k <= l <= cs@.len(),
            n <= 2,
            (n < 2 && count_in(cs@, i as int, l as int, c) == n + count_in(cs@, k as int, l as int, c))
                || (n == 2 && count_in(cs@, i as int, l as int, c) >= 2 + count_in(cs@, k as int, l as int, c)),
        decreases l - k,
    {
        proof {
            lemma_count_nonneg(cs@, (k + 1) as int, l as int, c);
        }
        if cs[k] == c && n < 2 {
            n = n + 1;
        }
        k = k + 1;
    }
    n
}

proof fn lemma_count_nonneg(s: Seq<char>, i: int, j: int, c: char)
    ensures
        count_in(s, i, j, c) >= 0,
    decreases j - i,
{
    if i < j {
        lemma_count_nonneg(s, i + 1, j, c);
    }
}

proof fn lemma_dest_counts_saturate(a: int, m: int, d: int, a2: int, m2: int, d2: int)
    requires
        a2 == a || (a2 == 2 && a >= 2),
        m2 == m || (m2 == 2 && m >= 2),
        d2 == d || (d2 == 2 && d >= 2),
    ensures
        dest_of_counts(a, m, d) == dest_of_counts(a2, m2, d2),
{
}

fn dest_exec(cs: &Vec<char>, i: usize, e: usize) -> (r: Parsed<DestinationRegisters>)
    requires
        i <= e <= cs@.len(),
    ensures
        r == dest_step(cs@, i as int, e as int),
{
    let q = scan(cs, i, e, CharClass::NotEquals);
    if q >= e {
        return Parsed::Done(DestinationRegisters::NoDestination, i);
    }
    let l = scan(cs, i, q, CharClass::Amd);
    if l == i {
        return Parsed::Fatal;
    }
    let sp = scan(cs, l, q, CharClass::SpaceTab);
    if sp != q {
        return Parsed::Done(DestinationRegisters::NoDestination, i);
    }
    proof {
        lemma_run_end(cs@, i as int, q as int, CharClass::Amd);
    }
    let a = count_letters(cs, i, l, 'A');
    let m = count_letters(cs, i, l, 'M');
    let d = count_letters(cs, i, l, 'D');
    proof {
        lemma_dest_counts_saturate(
            count_in(cs@, i as int, l as int, 'A'),
            count_in(cs@, i as int, l as int, 'M'),
            count_in(cs@, i as int, l as int, 'D'),
            a as int,
            m as int,
            d as int,
        );
    }
    match dest_of_counts_exec(a, m, d) {
        Some(dst) => Parsed::Done(dst, q + 1),
        None => Parsed::Done(DestinationRegisters::NoDestination, i),
    }
}

fn comp_code_exec(t: &Vec<char>) -> (r: Option<UWord>)
    ensures
        r == comp_code(t@),
{
    if chars_eq_str(t, "0") { Some(0x01AA) }
    else if chars_eq_str(t, "1") { Some(0x01BF) }
    else if chars_eq_str(t, "-1") { Some(0x01BA) }
    else if chars_eq_str(t, "D") { Some(0x018C) }
    else if chars_eq_str(t, "A") { Some(0x01B0) }
    else if chars_eq_str(t, "M") { Some(0x01F0) }
    else if chars_eq_str(t, "!D") { Some(0x018D) }
    else if chars_eq_str(t, "!A") { Some(0x01B1) }
    else if chars_eq_str(t, "!M") { Some(0x01F1) }
    else if chars_eq_str(t, "-D") { Some(0x018F) }
    else if chars_eq_str(t, "-A") { Some(0x01B3) }
    else if chars_eq_str(t, "-M") { Some(0x01F3) }
    else if chars_eq_str(t, "D+1") { Some(0x019F) }
    else if chars_eq_str(t, "A+1") { Some(0x01B7) }
    else if chars_eq_str(t, "M+1") { Some(0x01F7) }
    else if chars_eq_str(t, "D-1") { Some(0x018E) }
    else if chars_eq_str(t, "A-1") { Some(0x01B2) }
    else if chars_eq_str(t, "M-1") { Some(0x01F2) }
    else if chars_eq_str(t, "D+A") { Some(0x0182) }
    else if chars_eq_str(t, "A+D") { Some(0x0182) }
    else if chars_eq_str(t, "D+M") { Some(0x01C2) }
    else if chars_eq_str(t, "M+D") { Some(0x01C2) }
    else if chars_eq_str(t, "D-A") { Some(0x0193) }
    else if chars_eq_str(t, "A-D") { Some(0x0187) }
    else if chars_eq_str(t, "D-M") { Some(0x01D3) }
    else if chars_eq_str(t, "M-D") { Some(0x01C7) }
    else if chars_eq_str(t, "D&A") { Some(0x0180) }
    else if chars_eq_str(t, "A&D") { Some(0x0180) }
    else if chars_eq_str(t, "D&M") { Some(0x01C0) }
    else if chars_eq_str(t, "M&D") { Some(0x01C0) }
    else if chars_eq_str(t, "D|A") { Some(0x0195) }
    else if chars_eq_str(t, "A|D") { Some(0x0195) }
    else if chars_eq_str(t, "D|M") { Some(0x01D5) }
    else if chars_eq_str(t, "M|D") { Some(0x01D5) }
    else { None }
}

fn calc_exec(cs: &Vec<char>, i: usize, e: usize) -> (r: Parsed<UWord>)
    requires
        i <= e <= cs@.len(),
    ensures
        r == calc_step(cs@, i as int, e as int),
{
    let q = scan(cs, i, e, CharClass::NotCalcEnd);
    if q == i {
        return Parsed::Fail;
    }
    let t = strip_whitespace_range(cs, i, q);
    match comp_code_exec(&t) {
        Some(c) => Parsed::Done(c, q),
        None => Parsed::Fail,
    }
}

fn jump_exec(cs: &Vec<char>, i: usize, e: usize) -> (r: (JumpCondition, usize))
    requires
        i <= e <= cs@.len(),
    ensures
        r.0 == jump_step(cs@, i as int, e as int).0,
        r.1 as int == jump_step(cs@, i as int, e as int).1,
{
    if i < e && cs[i] == ';' {
        let j = scan(cs, i + 1, e, CharClass::SpaceTab);
        proof {
            reveal_strlit("JEQ");
            reveal_strlit("JGE");
            reveal_strlit("JGT");
            reveal_strlit("JLE");
            reveal_strlit("JLT");
            reveal_strlit("JMP");
            reveal_strlit("JNE");
        }
        if matches_str_at(cs, j, e, "JEQ") {
            (JumpCondition::JEQ, j + 3)
        } else if matches_str_at(cs, j, e, "JGE") {
            (JumpCondition::JGE, j + 3)
        } else if matches_str_at(cs, j, e, "JGT") {
            (JumpCondition::JGT, j + 3)
        } else if matches_str_at(cs, j, e, "JLE") {
            (JumpCondition::JLE, j + 3)
        } else if matches_str_at(cs, j, e, "JLT") {
            (JumpCondition::JLT, j + 3)
        } else if matches_str_at(cs, j, e, "JMP") {
            (JumpCondition::JMP, j + 3)
        } else if matches_str_at(cs, j, e, "JNE") {
            (JumpCondition::JNE, j + 3)
        } else {
            (JumpCondition::NoJump, i)
        }
    } else {
        (JumpCondition::NoJump, i)
    }
}

/// Reads a decimal word (optional sign, digits) at `i`, as nom's `i16` does.
pub fn number_exec(cs: &Vec<char>, i: usize, e: usize) -> (r: Option<(Word, usize)>)
    requires
        i <= e <= cs@.len(),
    ensures
        r matches Some((v, n)) ==> number_step(cs@, i as int, e as int) == Some((v, n as int)),
        r is None ==> number_step(cs@, i as int, e as int) is None,
{
    let neg = i < e && cs[i] == '-';
    let plus = i < e && cs[i] == '+';
    let i1 = if neg || plus { i + 1 } else { i };
    let d = scan(cs, i1, e, CharClass::Digit);
    if d == i1 {
        return None;
    }
    proof {
        lemma_run_end(cs@, i1 as int, e as int, CharClass::Digit);
    }
    let mut v: u32 = 0;
    let mut big = false;
    let mut k = i1;
    while k < d
        invariant
            i1 <= k <= d <= e <= cs@.len(),
            forall|x: int| i1 <= x < d ==> in_class(#[trigger] cs@[x], CharClass::Digit),
            big ==> digits_value(cs@, i1 as int, k as int) > 32768,
            !big ==> v == digits_value(cs@, i1 as int, k as int) && v <= 32768,
        decreases d - k,
    {
        let c = cs[k];
        assert(in_class(cs@[k as int], CharClass::Digit));
        let dig: u32 = (c as u32) - ('0' as u32);
        if !big {
            let nv: u32 = v * 10 + dig;
            if nv > 32768 {
                big = true;
            } else {
                v = nv;
            }
        }
        k = k + 1;
    }
    if big {
        return None;
    }
    if neg {
        let sv: i32 = -(v as i32);
        Some((sv as i16, d))
    } else if v <= 32767 {
        Some((v as i16, d))
    } else {
        None
    }
}

fn a_exec(cs: &Vec<char>, i: usize, e: usize) -> (r: Parsed<AssemblyInstruction>)
    requires
        i <= e <= cs@.len(),
    ensures
        same_outcome(r, a_step(cs@, i as int, e as int)),
{
    if i < e && cs[i] == '@' {
        let num = number_exec(cs, i + 1, e);
        match num {
            Some((v, n)) => {
                if v >= 0 {
                    return Parsed::Done(AssemblyInstruction::AtNumberInstruction(v), n);
                }
            },
            None => {},
        }
        let k = scan(cs, i + 1, e, CharClass::Identifier);
        if k > i + 1 {
            Parsed::Done(AssemblyInstruction::AtIdentifierInstruction(string_of_range(cs, i + 1, k)), k)
        } else {
            Parsed::Fail
        }
    } else {
        Parsed::Fail
    }
}

fn label_exec(cs: &Vec<char>, i: usize, e: usize) -> (r: Parsed<AssemblyInstruction>)
    requires
        i <= e <= cs@.len(),
    ensures
        same_outcome(r, label_step(cs@, i as int, e as int)),
{
    if i < e && cs[i] == '(' {
        let k = scan(cs, i + 1, e, CharClass::Identifier);
        if k > i + 1 && k < e && cs[k] == ')' {
            Parsed::Done(AssemblyInstruction::Label(string_of_range(cs, i + 1, k)), k + 1)
        } else {
            Parsed::Fail
        }
    } else {
        Parsed::Fail
    }
}

fn c_exec(cs: &Vec<char>, i: usize, e: usize) -> (r: Parsed<AssemblyInstruction>)
    requires
        i <= e <= cs@.len(),
    ensures
        same_outcome(r, c_step(cs@, i as int, e as int)),
{
    match dest_exec(cs, i, e) {
        Parsed::Fatal => Parsed::Fatal,
        Parsed::Fail => Parsed::Fail,
        Parsed::Done(d, i1) => {
            proof {
                lemma_run_end(cs@, i as int, e as int, CharClass::NotEquals);
            }
            match calc_exec(cs, i1, e) {
                Parsed::Done(c, i2) => {
                    proof {
                        lemma_run_end(cs@, i1 as int, e as int, CharClass::NotCalcEnd);
                    }
                    let (j, i3) = jump_exec(cs, i2, e);
                    Parsed::Done(AssemblyInstruction::Instruction(Instruction::create(d, c, j)), i3)
                },
                _ => Parsed::Fail,
            }
        },
    }
}

fn instruction_exec(cs: &Vec<char>, i: usize, e: usize) -> (r: Parsed<AssemblyInstruction>)
    requires
        i <= e <= cs@.len(),
    ensures
        same_outcome(r, instruction_step(cs@, i as int, e as int)),
{
    match c_exec(cs, i, e) {
        Parsed::Fatal => Parsed::Fatal,
        Parsed::Done(x, n) => Parsed::Done(x, n),
        Parsed::Fail => match a_exec(cs, i, e) {
            Parsed::Done(x, n) => Parsed::Done(x, n),
            _ => label_exec(cs, i, e),
        },
    }
}


/// Whether a line read agrees with what `line_step` says.
pub open spec fn same_line(r: Option<Option<AssemblyInstruction>>, q: Option<Option<AsmItem>>) -> bool {
    match (r, q) {
        (Some(Some(x)), Some(Some(y))) => x@ == y,
        (Some(None), Some(None)) => true,
        (None, None) => true,
        _ => false,
    }
}

fn line_exec(cs: &Vec<char>, i: usize, e: usize) -> (r: Option<Option<AssemblyInstruction>>)
    requires
        i <= e <= cs@.len(),
    ensures
        same_line(r, line_step(cs@, i as int, e as int)),
{
    let p = scan(cs, i, e, CharClass::NotSlash);
    if p < e && !(p + 1 < e && cs[p + 1] == '/') {
        return None;
    }
    let j = scan(cs, i, p, CharClass::SpaceTab);
    match instruction_exec(cs, j, p) {
        Parsed::Fatal => None,
        Parsed::Done(x, k) => {
            if k <= p && scan(cs, k, p, CharClass::SpaceTab) == p {
                Some(Some(x))
            } else {
                let len = cs.len();
                proof {
                    lemma_instruction_end(cs@, j as int, p as int);
                }
                None
            }
        },
        Parsed::Fail => {
            if j == p {
                Some(None)
            } else {
                None
            }
        },
    }
}

/// Every parser stops within its input.
proof fn lemma_instruction_end(s: Seq<char>, i: int, e: int)
    requires
        0 <= i <= e <= s.len() <= usize::MAX,
    ensures
        instruction_step(s, i, e) matches Parsed::Done(_, n) ==> i <= n <= e,
{
    lemma_run_end(s, i, e, CharClass::NotEquals);
    if let Parsed::Done(d, i1) = dest_step(s, i, e) {
        lemma_run_end(s, i1 as int, e, CharClass::NotCalcEnd);
        if let Parsed::Done(c, i2) = calc_step(s, i1 as int, e) {
            if i2 < e {
                lemma_run_end(s, i2 + 1, e, CharClass::SpaceTab);
            }
            reveal_strlit("JEQ");
            reveal_strlit("JGE");
            reveal_strlit("JGT");
            reveal_strlit("JLE");
            reveal_strlit("JLT");
            reveal_strlit("JMP");
            reveal_strlit("JNE");
        }
    }
    if i < e {
        lemma_run_end(s, i + 1, e, CharClass::Identifier);
        lemma_run_end(s, i + 1, e, CharClass::Digit);
        if i + 1 < e {
            lemma_run_end(s, i + 2, e, CharClass::Digit);
        }
    }
}

/// Prepends `a` to the instructions of an optional rest.
pub open spec fn join_items(a: Seq<AsmItem>, o: Option<Seq<AsmItem>>) -> Option<Seq<AsmItem>> {
    match o {
        Some(r) => Some(a + r),
        None => None,
    }
}

pub fn parse_instructions(input: &str) -> (r: Result<(String, Vec<AssemblyInstruction>), ParseError>)
    ensures
        r is Ok <==> parse_program(input@) is Some,
        r matches Ok((rest, v)) ==> rest@.len() == 0 && items_of(v@) == parse_program(input@).unwrap(),
{
    let cs = str_chars(input);
    let n = cs.len();
    let mut out: Vec<AssemblyInstruction> = Vec::new();
    let mut i: usize = 0;
    loop
        invariant
            cs@ == input@,
            n == cs@.len(),
            i <= n,
            program_from(cs@, 0) == join_items(items_of(out@), program_from(cs@, i as int)),
        decreases n + 1 - i,
    {
        let e = scan(&cs, i, n, CharClass::NotLineBreak);
        proof {
            lemma_run_end(cs@, i as int, n as int, CharClass::NotLineBreak);
        }
        if e < n && cs[e] == '\r' && !(e + 1 < n && cs[e + 1] == '\n') {
            return Err(ParseError);
        }
        let line = line_exec(&cs, i, e);
        let ghost before = items_of(out@);
        match line {
            None => {
                return Err(ParseError);
            },
            Some(item) => {
                match item {
                    Some(x) => {
                        out.push(x);
                        proof {
                            assert(items_of(out@) =~= before.push(x@));
                        }
                    },
                    None => {},
                }
            },
        }
        proof {
            let here: Seq<AsmItem> = match line_step(cs@, i as int, e as int).unwrap() {
                Some(x) => seq![x],
                None => Seq::empty(),
            };
            assert(items_of(out@) =~= before + here);
            if e < n {
                let nx = next_line_start(cs@, e as int);
                match program_from(cs@, nx) {
                    Some(r) => {
                        assert(before + (here + r) =~= (before + here) + r);
                    },
                    None => {},
                }
            } else {
                assert(items_of(out@) + Seq::<AsmItem>::empty() =~= items_of(out@));
            }
        }
        if e >= n {
            return Ok((String::new(), out));
        }
        if cs[e] == '\n' {
            i = e + 1;
        } else {
            i = e + 2;
        }
    }
}

/// Reads one instruction at the start of `input`; returns the rest and the instruction.
pub fn instruction(input: &str) -> (r: Result<(String, AssemblyInstruction), ParseError>)
    ensures
        r is Ok <==> instruction_step(input@, 0, input@.len() as int) is Done,
        r matches Ok((rest, x)) ==> instruction_step(input@, 0, input@.len() as int) matches Parsed::Done(y, k)
            && x@ == y && rest@ == input@.subrange(k as int, input@.len() as int),
{
    let cs = str_chars(input);
    let len = cs.len();
    proof {
        lemma_instruction_end(cs@, 0, cs@.len() as int);
    }
    match instruction_exec(&cs, 0, cs.len()) {
        Parsed::Done(x, k) => Ok((string_of_range(&cs, k, cs.len()), x)),
        _ => Err(ParseError),
    }
}

/// Reads the destination part `dest=` at the start of `input`; returns the rest and the
/// destination.
pub fn parse_destination_registers(input: &str) -> (r: Result<(String, DestinationRegisters), ParseError>)
    ensures
        r is Ok <==> dest_step(input@, 0, input@.len() as int) is Done,
        r matches Ok((rest, d)) ==> dest_step(input@, 0, input@.len() as int) matches Parsed::Done(d2, k)
            && d == d2 && rest@ == input@.subrange(k as int, input@.len() as int),
{
    let cs = str_chars(input);
    proof {
        lemma_run_end(cs@, 0, cs@.len() as int, CharClass::NotEquals);
    }
    match dest_exec(&cs, 0, cs.len()) {
        Parsed::Done(d, k) => Ok((string_of_range(&cs, k, cs.len()), d)),
        _ => Err(ParseError),
    }
}


/// The symbols known before any label: R0 to R15, SP, LCL, ARG, THIS, THAT, and SCREEN.
/// SCREEN is given twice, first as 16384 and then as 24576, and the later entry stands.
pub open spec fn predefined_symbols() -> Map<Seq<char>, Word> {
    Map::<Seq<char>, Word>::empty()
        .insert("R0"@, 0)
        .insert("R1"@, 1)
        .insert("R2"@, 2)
        .insert("R3"@, 3)
        .insert("R4"@, 4)
        .insert("R5"@, 5)
        .insert("R6"@, 6)
        .insert("R7"@, 7)
        .insert("R8"@, 8)
        .insert("R9"@, 9)
        .insert("R10"@, 10)
        .insert("R11"@, 11)
        .insert("R12"@, 12)
        .insert("R13"@, 13)
        .insert("R14"@, 14)
        .insert("R15"@, 15)
        .insert("SP"@, 0)
        .insert("LCL"@, 1)
        .insert("ARG"@, 2)
        .insert("THIS"@, 3)
        .insert("THAT"@, 4)
        .insert("SCREEN"@, 16384)
        .insert("SCREEN"@, 24576)
}

/// The symbol table after the labels from `k` on: each label names the number of
/// instructions before it; `None` where a label is already a symbol or the count leaves
/// the word range.
pub open spec fn labels_pass(items: Seq<AsmItem>, k: int, m: Map<Seq<char>, Word>, index: int) -> Option<
    Map<Seq<char>, Word>,
>
    decreases items.len() - k,
{
    if k < 0 || k >= items.len() {
        Some(m)
    } else {
        match items[k] {
            AsmItem::Label(name) => if m.dom().contains(name) {
                None
            } else {
                labels_pass(items, k + 1, m.insert(name, index as Word), index)
            },
            _ => if index >= i16::MAX {
                None
            } else {
                labels_pass(items, k + 1, m, index + 1)
            },
        }
    }
}

/// Prepends a word to an optional sequence.
pub open spec fn prepend_word(b: UWord, o: Option<Seq<UWord>>) -> Option<Seq<UWord>> {
    match o {
        Some(r) => Some(seq![b] + r),
        None => None,
    }
}

/// Prepends words to an optional sequence.
pub open spec fn prepend_words(a: Seq<UWord>, o: Option<Seq<UWord>>) -> Option<Seq<UWord>> {
    match o {
        Some(r) => Some(a + r),
        None => None,
    }
}

/// The instruction words from item `k` on: instructions as they are, numbers as their
/// value, symbols as their table entry, where an unknown symbol becomes a new variable at
/// `next` (the next free address from 16 on); labels give no word. `None` where the next
/// free address leaves the word range.
pub open spec fn emit_pass(items: Seq<AsmItem>, k: int, m: Map<Seq<char>, Word>, next: int) -> Option<
    Seq<UWord>,
>
    decreases items.len() - k,
{
    if k < 0 || k >= items.len() {
        Some(Seq::empty())
    } else {
        match items[k] {
            AsmItem::Instr(b) => prepend_word(b, emit_pass(items, k + 1, m, next)),
            AsmItem::Label(_) => emit_pass(items, k + 1, m, next),
            AsmItem::AtIdentifier(id) => if m.dom().contains(id) {
                prepend_word(m[id] as UWord, emit_pass(items, k + 1, m, next))
            } else if next >= i16::MAX {
                None
            } else {
                prepend_word(next as UWord, emit_pass(items, k + 1, m.insert(id, next as Word), next + 1))
            },
            AsmItem::AtNumber(v) => prepend_word(v as UWord, emit_pass(items, k + 1, m, next)),
        }
    }
}

/// The program that assembly items assemble to; `None` where assembling fails.
pub open spec fn assemble_spec(items: Seq<AsmItem>) -> Option<Seq<UWord>> {
    match labels_pass(items, 0, predefined_symbols(), 0) {
        Some(m) => emit_pass(items, 0, m, 16),
        None => None,
    }
}

/// The words of a sequence of instructions.
pub open spec fn instruction_bits(v: Seq<Instruction>) -> Seq<UWord> {
    v.map_values(|i: Instruction| i.bits())
}

fn initial_symbols() -> (t: SymbolTable)
    ensures
        symbol_entries(t) == predefined_symbols(),
{
    let mut t = SymbolTable::new();
    assert(symbol_entries(t) =~= Map::<Seq<char>, Word>::empty());
    t.insert("R0", 0);
    t.insert("R1", 1);
    t.insert("R2", 2);
    t.insert("R3", 3);
    t.insert("R4", 4);
    t.insert("R5", 5);
    t.insert("R6", 6);
    t.insert("R7", 7);
    t.insert("R8", 8);
    t.insert("R9", 9);
    t.insert("R10", 10);
    t.insert("R11", 11);
    t.insert("R12", 12);
    t.insert("R13", 13);
    t.insert("R14", 14);
    t.insert("R15", 15);
    t.insert("SP", 0);
    t.insert("LCL", 1);
    t.insert("ARG", 2);
    t.insert("THIS", 3);
    t.insert("THAT", 4);
    t.insert("SCREEN", 16384);
    t.insert("SCREEN", 24576);
    t
}

/// Assembles the instructions: resolves labels and symbols (new symbols become variables
/// from address 16 on) and drops labels.
pub fn assemble(assembly_instructions: &[AssemblyInstruction]) -> (rom: Vec<Instruction>)
    requires
        assemble_spec(items_of(assembly_instructions@)) is Some,
    ensures
        Some(instruction_bits(rom@)) == assemble_spec(items_of(assembly_instructions@)),
{
    let ghost items = items_of(assembly_instructions@);
    let mut at_identifier_map = initial_symbols();

    let mut index: Word = 0;
    let mut k: usize = 0;
    while k < assembly_instructions.len()
        invariant
            items == items_of(assembly_instructions@),
            k <= assembly_instructions@.len(),
            0 <= index,
            labels_pass(items, 0, predefined_symbols(), 0) == labels_pass(
                items,
                k as int,
                symbol_entries(at_identifier_map),
                index as int,
            ),
            labels_pass(items, 0, predefined_symbols(), 0) is Some,
        decreases assembly_instructions@.len() - k,
    {
        match &assembly_instructions[k] {
            AssemblyInstruction::Label(label) => {
                match at_identifier_map.get(label.as_str()) {
                    Some(_) => {
                        proof {
                            assert(false);
                        }
                    },
                    None => {
                        at_identifier_map.insert(label.as_str(), index);
                    },
                }
            },
            _ => {
                index = index + 1;
            },
        }
        k = k + 1;
    }

    let ghost m0 = symbol_entries(at_identifier_map);
    let mut rom: Vec<Instruction> = Vec::new();
    let mut static_var_index: Word = 16;
    let mut k: usize = 0;
    while k < assembly_instructions.len()
        invariant
            items == items_of(assembly_instructions@),
            k <= assembly_instructions@.len(),
            16 <= static_var_index,
            emit_pass(items, 0, m0, 16) == prepend_words(
                instruction_bits(rom@),
                emit_pass(items, k as int, symbol_entries(at_identifier_map), static_var_index as int),
            ),
            emit_pass(items, 0, m0, 16) is Some,
        decreases assembly_instructions@.len() - k,
    {
        let ghost before = instruction_bits(rom@);
        let ghost rest = emit_pass(items, k + 1, symbol_entries(at_identifier_map), static_var_index as int);
        match &assembly_instructions[k] {
            AssemblyInstruction::Instruction(instruction) => {
                rom.push(*instruction);
            },
            AssemblyInstruction::Label(_) => {},
            AssemblyInstruction::AtIdentifierInstruction(identifier) => {
                match at_identifier_map.get(identifier.as_str()) {
                    Some(v) => {
                        rom.push(Instruction::new(v as u16));
                    },
                    None => {
                        at_identifier_map.insert(identifier.as_str(), static_var_index);
                        rom.push(Instruction::new(static_var_index as u16));
                        static_var_index = static_var_index + 1;
                    },
                }
            },
            AssemblyInstruction::AtNumberInstruction(value) => {
                rom.push(Instruction::new(*value as u16));
            },
        }
        proof {
            let after = instruction_bits(rom@);
            assert(after == before || after == before.push(after.last()));
            assert(after =~= before || after =~= before.push(after.last()));
            match emit_pass(items, k + 1, symbol_entries(at_identifier_map), static_var_index as int) {
                Some(r) => {
                    assert(before + (seq![after.last()] + r) =~= before.push(after.last()) + r);
                },
                None => {},
            }
        }
        k = k + 1;
    }
    rom
}

/// Whether assembly instructions assemble (no label is defined twice, the instructions and
/// the variables fit in the word range) to a program that fits in ROM.
pub fn assembles(assembly_instructions: &[AssemblyInstruction]) -> (r: bool)
    ensures
        r == (assemble_spec(items_of(assembly_instructions@)) matches Some(w) && w.len() <= MEM_SIZE),
{
    let ghost items = items_of(assembly_instructions@);
    let mut at_identifier_map = initial_symbols();
    let mut index: Word = 0;
    let mut k: usize = 0;
    while k < assembly_instructions.len()
        invariant
            items == items_of(assembly_instructions@),
            k <= assembly_instructions@.len(),
            0 <= index,
            labels_pass(items, 0, predefined_symbols(), 0) == labels_pass(
                items,
                k as int,
                symbol_entries(at_identifier_map),
                index as int,
            ),
        decreases assembly_instructions@.len() - k,
    {
        match &assembly_instructions[k] {
            AssemblyInstruction::Label(label) => {
                match at_identifier_map.get(label.as_str()) {
                    Some(_) => {
                        return false;
                    },
                    None => {
                        at_identifier_map.insert(label.as_str(), index);
                    },
                }
            },
            _ => {
                if index == i16::MAX {
                    return false;
                }
                index = index + 1;
            },
        }
        k = k + 1;
    }
    let ghost m0 = symbol_entries(at_identifier_map);
    let ghost mut words: Seq<UWord> = Seq::empty();
    let mut count: usize = 0;
    let mut static_var_index: Word = 16;
    let mut k: usize = 0;
    while k < assembly_instructions.len()
        invariant
            items == items_of(assembly_instructions@),
            k <= assembly_instructions@.len(),
            16 <= static_var_index,
            count == words.len() <= k,
            labels_pass(items, 0, predefined_symbols(), 0) == Some(m0),
            emit_pass(items, 0, m0, 16) == prepend_words(
                words,
                emit_pass(items, k as int, symbol_entries(at_identifier_map), static_var_index as int),
            ),
        decreases assembly_instructions@.len() - k,
    {
        let ghost before = words;
        match &assembly_instructions[k] {
            AssemblyInstruction::Instruction(instruction) => {
                proof {
                    words = words.push(instruction.bits());
                }
                count = count + 1;
            },
            AssemblyInstruction::Label(_) => {},
            AssemblyInstruction::AtIdentifierInstruction(identifier) => {
                match at_identifier_map.get(identifier.as_str()) {
                    Some(v) => {
                        proof {
                            words = words.push(v as u16);
                        }
                        count = count + 1;
                    },
                    None => {
                        if static_var_index == i16::MAX {
                            return false;
                        }
                        at_identifier_map.insert(identifier.as_str(), static_var_index);
                        proof {
                            words = words.push(static_var_index as u16);
                        }
                        static_var_index = static_var_index + 1;
                        count = count + 1;
                    },
                }
            },
            AssemblyInstruction::AtNumberInstruction(value) => {
                proof {
                    words = words.push(*value as u16);
                }
                count = count + 1;
            },
        }
        proof {
            match emit_pass(items, k + 1, symbol_entries(at_identifier_map), static_var_index as int) {
                Some(r) => {
                    if words.len() > before.len() {
                        assert(before + (seq![words.last()] + r) =~= before.push(words.last()) + r);
                    }
                },
                None => {},
            }
        }
        k = k + 1;
    }
    assert(words + Seq::<UWord>::empty() =~= words);
    count <= MEM_SIZE
}

/// Parses and assembles an assembly text.
pub fn assemble_hack_file(input: &str) -> (r: Result<(String, Vec<Instruction>), ParseError>)
    requires
        parse_program(input@) matches Some(items) ==> assemble_spec(items) is Some,
    ensures
        r is Ok <==> parse_program(input@) is Some,
        r matches Ok((rest, rom)) ==> rest@.len() == 0 && Some(instruction_bits(rom@))
            == assemble_spec(parse_program(input@).unwrap()),
{
    match parse_instructions(input) {
        Ok((rest, v)) => Ok((rest, assemble(v.as_slice()))),
        Err(e) => Err(e),
    }
}


// ---------------------------------------------------------------- reading back an instruction's text

/// The characters that computation mnemonics are made of.
pub open spec fn comp_char(ch: char) -> bool {
    ch == '0' || ch == '1' || ch == '-' || ch == '!' || ch == '+' || ch == '&' || ch == '|' || ch == 'A'
        || ch == 'M' || ch == 'D'
}

/// A computation mnemonic, as the assembly text of an instruction writes it.
pub open spec fn is_mnemonic_text(t: Seq<char>) -> bool {
    &&& 1 <= t.len() <= 3
    &&& forall|i: int| 0 <= i < t.len() ==> comp_char(#[trigger] t[i])
}

/// Two texts differ in length or at `k`.
proof fn lemma_text_differs(a: Seq<char>, b: Seq<char>, k: int)
    requires
        a.len() != b.len() || (0 <= k < a.len() && k < b.len() && a[k] != b[k]),
    ensures
        a != b,
{
}

#[verifier::spinoff_prover]
proof fn lemma_comp_group0(c: u16)
    requires
        c == 0x01AA || c == 0x01BF || c == 0x01BA || c == 0x018C || c == 0x01B0 || c == 0x01F0 || c == 0x018D,
    ensures
        comp_code(comp_mnemonic(c)) == Some(c),
        is_mnemonic_text(comp_mnemonic(c)),
{
    reveal_strlit("0");
    reveal_strlit("1");
    reveal_strlit("-1");
    reveal_strlit("D");
    reveal_strlit("A");
    reveal_strlit("M");
    reveal_strlit("!D");
    reveal_strlit("!A");
    reveal_strlit("!M");
    reveal_strlit("-D");
    reveal_strlit("-A");
    reveal_strlit("-M");
    reveal_strlit("D+1");
    reveal_strlit("A+1");
    reveal_strlit("M+1");
    reveal_strlit("D-1");
    reveal_strlit("A-1");
    reveal_strlit("M-1");
    reveal_strlit("D+A");
    reveal_strlit("A+D");
    reveal_strlit("D+M");
    reveal_strlit("M+D");
    reveal_strlit("D-A");
    reveal_strlit("A-D");
    reveal_strlit("D-M");
    reveal_strlit("M-D");
    reveal_strlit("D&A");
    reveal_strlit("A&D");
    reveal_strlit("D&M");
    reveal_strlit("M&D");
    reveal_strlit("D|A");
    reveal_strlit("A|D");
    reveal_strlit("D|M");
    reveal_strlit("M|D");
    if c == 0x01AA {
            
        } else if c == 0x01BF {
            lemma_text_differs("1"@, "0"@, 0);
        } else if c == 0x01BA {
            lemma_text_differs("-1"@, "0"@, 0);
            lemma_text_differs("-1"@, "1"@, 0);
        } else if c == 0x018C {
            lemma_text_differs("D"@, "0"@, 0);
            lemma_text_differs("D"@, "1"@, 0);
            lemma_text_differs("D"@, "-1"@, 0);
        } else if c == 0x01B0 {
            lemma_text_differs("A"@, "0"@, 0);
            lemma_text_differs("A"@, "1"@, 0);
            lemma_text_differs("A"@, "-1"@, 0);
            lemma_text_differs("A"@, "D"@, 0);
        } else if c == 0x01F0 {
            lemma_text_differs("M"@, "0"@, 0);
            lemma_text_differs("M"@, "1"@, 0);
            lemma_text_differs("M"@, "-1"@, 0);
            lemma_text_differs("M"@, "D"@, 0);
            lemma_text_differs("M"@, "A"@, 0);
        } else if c == 0x018D {
            lemma_text_differs("!D"@, "0"@, 0);
            lemma_text_differs("!D"@, "1"@, 0);
            lemma_text_differs("!D"@, "-1"@, 0);
            lemma_text_differs("!D"@, "D"@, 0);
            lemma_text_differs("!D"@, "A"@, 0);
            lemma_text_differs("!D"@, "M"@, 0);
        }
}

#[verifier::spinoff_prover]
proof fn lemma_comp_group1(c: u16)
    requires
        c == 0x01B1 || c == 0x01F1 || c == 0x018F || c == 0x01B3 || c == 0x01F3 || c == 0x019F || c == 0x01B7,
    ensures
        comp_code(comp_mnemonic(c)) == Some(c),
        is_mnemonic_text(comp_mnemonic(c)),
{
    reveal_strlit("0");
    reveal_strlit("1");
    reveal_strlit("-1");
    reveal_strlit("D");
    reveal_strlit("A");
    reveal_strlit("M");
    reveal_strlit("!D");
    reveal_strlit("!A");
    reveal_strlit("!M");
    reveal_strlit("-D");
    reveal_strlit("-A");
    reveal_strlit("-M");
    reveal_strlit("D+1");
    reveal_strlit("A+1");
    reveal_strlit("M+1");
    reveal_strlit("D-1");
    reveal_strlit("A-1");
    reveal_strlit("M-1");
    reveal_strlit("D+A");
    reveal_strlit("A+D");
    reveal_strlit("D+M");
    reveal_strlit("M+D");
    reveal_strlit("D-A");
    reveal_strlit("A-D");
    reveal_strlit("D-M");
    reveal_strlit("M-D");
    reveal_strlit("D&A");
    reveal_strlit("A&D");
    reveal_strlit("D&M");
    reveal_strlit("M&D");
    reveal_strlit("D|A");
    reveal_strlit("A|D");
    reveal_strlit("D|M");
    reveal_strlit("M|D");
    if c == 0x01B1 {
            lemma_text_differs("!A"@, "0"@, 0);
            lemma_text_differs("!A"@, "1"@, 0);
            lemma_text_differs("!A"@, "-1"@, 0);
            lemma_text_differs("!A"@, "D"@, 0);
            lemma_text_differs("!A"@, "A"@, 0);
            lemma_text_differs("!A"@, "M"@, 0);
            lemma_text_differs("!A"@, "!D"@, 1);
        } else if c == 0x01F1 {
            lemma_text_differs("!M"@, "0"@, 0);
            lemma_text_differs("!M"@, "1"@, 0);
            lemma_text_differs("!M"@, "-1"@, 0);
            lemma_text_differs("!M"@, "D"@, 0);
            lemma_text_differs("!M"@, "A"@, 0);
            lemma_text_differs("!M"@, "M"@, 0);
            lemma_text_differs("!M"@, "!D"@, 1);
            lemma_text_differs("!M"@, "!A"@, 1);
        } else if c == 0x018F {
            lemma_text_differs("-D"@, "0"@, 0);
            lemma_text_differs("-D"@, "1"@, 0);
            lemma_text_differs("-D"@, "-1"@, 1);
            lemma_text_differs("-D"@, "D"@, 0);
            lemma_text_differs("-D"@, "A"@, 0);
            lemma_text_differs("-D"@, "M"@, 0);
            lemma_text_differs("-D"@, "!D"@, 0);
            lemma_text_differs("-D"@, "!A"@, 0);
            lemma_text_differs("-D"@, "!M"@, 0);
        } else if c == 0x01B3 {
            lemma_text_differs("-A"@, "0"@, 0);
            lemma_text_differs("-A"@, "1"@, 0);
            lemma_text_differs("-A"@, "-1"@, 1);
            lemma_text_differs("-A"@, "D"@, 0);
            lemma_text_differs("-A"@, "A"@, 0);
            lemma_text_differs("-A"@, "M"@, 0);
            lemma_text_differs("-A"@, "!D"@, 0);
            lemma_text_differs("-A"@, "!A"@, 0);
            lemma_text_differs("-A"@, "!M"@, 0);
            lemma_text_differs("-A"@, "-D"@, 1);
        } else if c == 0x01F3 {
            lemma_text_differs("-M"@, "0"@, 0);
            lemma_text_differs("-M"@, "1"@, 0);
            lemma_text_differs("-M"@, "-1"@, 1);
            lemma_text_differs("-M"@, "D"@, 0);
            lemma_text_differs("-M"@, "A"@, 0);
            lemma_text_differs("-M"@, "M"@, 0);
            lemma_text_differs("-M"@, "!D"@, 0);
            lemma_text_differs("-M"@, "!A"@, 0);
            lemma_text_differs("-M"@, "!M"@, 0);
            lemma_text_differs("-M"@, "-D"@, 1);
            lemma_text_differs("-M"@, "-A"@, 1);
        } else if c == 0x019F {
            lemma_text_differs("D+1"@, "0"@, 0);
            lemma_text_differs("D+1"@, "1"@, 0);
            lemma_text_differs("D+1"@, "-1"@, 0);
            lemma_text_differs("D+1"@, "D"@, 0);
            lemma_text_differs("D+1"@, "A"@, 0);
            lemma_text_differs("D+1"@, "M"@, 0);
            lemma_text_differs("D+1"@, "!D"@, 0);
            lemma_text_differs("D+1"@, "!A"@, 0);
            lemma_text_differs("D+1"@, "!M"@, 0);
            lemma_text_differs("D+1"@, "-D"@, 0);
            lemma_text_differs("D+1"@, "-A"@, 0);
            lemma_text_differs("D+1"@, "-M"@, 0);
        } else if c == 0x01B7 {
            lemma_text_differs("A+1"@, "0"@, 0);
            lemma_text_differs("A+1"@, "1"@, 0);
            lemma_text_differs("A+1"@, "-1"@, 0);
            lemma_text_differs("A+1"@, "D"@, 0);
            lemma_text_differs("A+1"@, "A"@, 0);
            lemma_text_differs("A+1"@, "M"@, 0);
            lemma_text_differs("A+1"@, "!D"@, 0);
            lemma_text_differs("A+1"@, "!A"@, 0);
            lemma_text_differs("A+1"@, "!M"@, 0);
            lemma_text_differs("A+1"@, "-D"@, 0);
            lemma_text_differs("A+1"@, "-A"@, 0);
            lemma_text_differs("A+1"@, "-M"@, 0);
            lemma_text_differs("A+1"@, "D+1"@, 0);
        }
}

#[verifier::spinoff_prover]
proof fn lemma_comp_group2(c: u16)
    requires
        c == 0x01F7 || c == 0x018E || c == 0x01B2 || c == 0x01F2 || c == 0x0182 || c == 0x01C2 || c == 0x0193,
    ensures
        comp_code(comp_mnemonic(c)) == Some(c),
        is_mnemonic_text(comp_mnemonic(c)),
{
    reveal_strlit("0");
    reveal_strlit("1");
    reveal_strlit("-1");
    reveal_strlit("D");
    reveal_strlit("A");
    reveal_strlit("M");
    reveal_strlit("!D");
    reveal_strlit("!A");
    reveal_strlit("!M");
    reveal_strlit("-D");
    reveal_strlit("-A");
    reveal_strlit("-M");
    reveal_strlit("D+1");
    reveal_strlit("A+1");
    reveal_strlit("M+1");
    reveal_strlit("D-1");
    reveal_strlit("A-1");
    reveal_strlit("M-1");
    reveal_strlit("D+A");
    reveal_strlit("A+D");
    reveal_strlit("D+M");
    reveal_strlit("M+D");
    reveal_strlit("D-A");
    reveal_strlit("A-D");
    reveal_strlit("D-M");
    reveal_strlit("M-D");
    reveal_strlit("D&A");
    reveal_strlit("A&D");
    reveal_strlit("D&M");
    reveal_strlit("M&D");
    reveal_strlit("D|A");
    reveal_strlit("A|D");
    reveal_strlit("D|M");
    reveal_strlit("M|D");
    if c == 0x01F7 {
            lemma_text_differs("M+1"@, "0"@, 0);
            lemma_text_differs("M+1"@, "1"@, 0);
            lemma_text_differs("M+1"@, "-1"@, 0);
            lemma_text_differs("M+1"@, "D"@, 0);
            lemma_text_differs("M+1"@, "A"@, 0);
            lemma_text_differs("M+1"@, "M"@, 0);
            lemma_text_differs("M+1"@, "!D"@, 0);
            lemma_text_differs("M+1"@, "!A"@, 0);
            lemma_text_differs("M+1"@, "!M"@, 0);
            lemma_text_differs("M+1"@, "-D"@, 0);
            lemma_text_differs("M+1"@, "-A"@, 0);
            lemma_text_differs("M+1"@, "-M"@, 0);
            lemma_text_differs("M+1"@, "D+1"@, 0);
            lemma_text_differs("M+1"@, "A+1"@, 0);
        } else if c == 0x018E {
            lemma_text_differs("D-1"@, "0"@, 0);
            lemma_text_differs("D-1"@, "1"@, 0);
            lemma_text_differs("D-1"@, "-1"@, 0);
            lemma_text_differs("D-1"@, "D"@, 0);
            lemma_text_differs("D-1"@, "A"@, 0);
            lemma_text_differs("D-1"@, "M"@, 0);
            lemma_text_differs("D-1"@, "!D"@, 0);
            lemma_text_differs("D-1"@, "!A"@, 0);
            lemma_text_differs("D-1"@, "!M"@, 0);
            lemma_text_differs("D-1"@, "-D"@, 0);
            lemma_text_differs("D-1"@, "-A"@, 0);
            lemma_text_differs("D-1"@, "-M"@, 0);
            lemma_text_differs("D-1"@, "D+1"@, 1);
            lemma_text_differs("D-1"@, "A+1"@, 0);
            lemma_text_differs("D-1"@, "M+1"@, 0);
        } else if c == 0x01B2 {
            lemma_text_differs("A-1"@, "0"@, 0);
            lemma_text_differs("A-1"@, "1"@, 0);
            lemma_text_differs("A-1"@, "-1"@, 0);
            lemma_text_differs("A-1"@, "D"@, 0);
            lemma_text_differs("A-1"@, "A"@, 0);
            lemma_text_differs("A-1"@, "M"@, 0);
            lemma_text_differs("A-1"@, "!D"@, 0);
            lemma_text_differs("A-1"@, "!A"@, 0);
            lemma_text_differs("A-1"@, "!M"@, 0);
            lemma_text_differs("A-1"@, "-D"@, 0);
            lemma_text_differs("A-1"@, "-A"@, 0);
            lemma_text_differs("A-1"@, "-M"@, 0);
            lemma_text_differs("A-1"@, "D+1"@, 0);
            lemma_text_differs("A-1"@, "A+1"@, 1);
            lemma_text_differs("A-1"@, "M+1"@, 0);
            lemma_text_differs("A-1"@, "D-1"@, 0);
        } else if c == 0x01F2 {
            lemma_text_differs("M-1"@, "0"@, 0);
            lemma_text_differs("M-1"@, "1"@, 0);
            lemma_text_differs("M-1"@, "-1"@, 0);
            lemma_text_differs("M-1"@, "D"@, 0);
            lemma_text_differs("M-1"@, "A"@, 0);
            lemma_text_differs("M-1"@, "M"@, 0);
            lemma_text_differs("M-1"@, "!D"@, 0);
            lemma_text_differs("M-1"@, "!A"@, 0);
            lemma_text_differs("M-1"@, "!M"@, 0);
            lemma_text_differs("M-1"@, "-D"@, 0);
            lemma_text_differs("M-1"@, "-A"@, 0);
            lemma_text_differs("M-1"@, "-M"@, 0);
            lemma_text_differs("M-1"@, "D+1"@, 0);
            lemma_text_differs("M-1"@, "A+1"@, 0);
            lemma_text_differs("M-1"@, "M+1"@, 1);
            lemma_text_differs("M-1"@, "D-1"@, 0);
            lemma_text_differs("M-1"@, "A-1"@, 0);
        } else if c == 0x0182 {
            lemma_text_differs("A+D"@, "0"@, 0);
            lemma_text_differs("A+D"@, "1"@, 0);
            lemma_text_differs("A+D"@, "-1"@, 0);
            lemma_text_differs("A+D"@, "D"@, 0);
            lemma_text_differs("A+D"@, "A"@, 0);
            lemma_text_differs("A+D"@, "M"@, 0);
            lemma_text_differs("A+D"@, "!D"@, 0);
            lemma_text_differs("A+D"@, "!A"@, 0);
            lemma_text_differs("A+D"@, "!M"@, 0);
            lemma_text_differs("A+D"@, "-D"@, 0);
            lemma_text_differs("A+D"@, "-A"@, 0);
            lemma_text_differs("A+D"@, "-M"@, 0);
            lemma_text_differs("A+D"@, "D+1"@, 0);
            lemma_text_differs("A+D"@, "A+1"@, 2);
            lemma_text_differs("A+D"@, "M+1"@, 0);
            lemma_text_differs("A+D"@, "D-1"@, 0);
            lemma_text_differs("A+D"@, "A-1"@, 1);
            lemma_text_differs("A+D"@, "M-1"@, 0);
            lemma_text_differs("A+D"@, "D+A"@, 0);
        } else if c == 0x01C2 {
            lemma_text_differs("D+M"@, "0"@, 0);
            lemma_text_differs("D+M"@, "1"@, 0);
            lemma_text_differs("D+M"@, "-1"@, 0);
            lemma_text_differs("D+M"@, "D"@, 0);
            lemma_text_differs("D+M"@, "A"@, 0);
            lemma_text_differs("D+M"@, "M"@, 0);
            lemma_text_differs("D+M"@, "!D"@, 0);
            lemma_text_differs("D+M"@, "!A"@, 0);
            lemma_text_differs("D+M"@, "!M"@, 0);
            lemma_text_differs("D+M"@, "-D"@, 0);
            lemma_text_differs("D+M"@, "-A"@, 0);
            lemma_text_differs("D+M"@, "-M"@, 0);
            lemma_text_differs("D+M"@, "D+1"@, 2);
            lemma_text_differs("D+M"@, "A+1"@, 0);
            lemma_text_differs("D+M"@, "M+1"@, 0);
            lemma_text_differs("D+M"@, "D-1"@, 1);
            lemma_text_differs("D+M"@, "A-1"@, 0);
            lemma_text_differs("D+M"@, "M-1"@, 0);
            lemma_text_differs("D+M"@, "D+A"@, 2);
            lemma_text_differs("D+M"@, "A+D"@, 0);
        } else if c == 0x0193 {
            lemma_text_differs("D-A"@, "0"@, 0);
            lemma_text_differs("D-A"@, "1"@, 0);
            lemma_text_differs("D-A"@, "-1"@, 0);
            lemma_text_differs("D-A"@, "D"@, 0);
            lemma_text_differs("D-A"@, "A"@, 0);
            lemma_text_differs("D-A"@, "M"@, 0);
            lemma_text_differs("D-A"@, "!D"@, 0);
            lemma_text_differs("D-A"@, "!A"@, 0);
            lemma_text_differs("D-A"@, "!M"@, 0);
            lemma_text_differs("D-A"@, "-D"@, 0);
            lemma_text_differs("D-A"@, "-A"@, 0);
            lemma_text_differs("D-A"@, "-M"@, 0);
            lemma_text_differs("D-A"@, "D+1"@, 1);
            lemma_text_differs("D-A"@, "A+1"@, 0);
            lemma_text_differs("D-A"@, "M+1"@, 0);
            lemma_text_differs("D-A"@, "D-1"@, 2);
            lemma_text_differs("D-A"@, "A-1"@, 0);
            lemma_text_differs("D-A"@, "M-1"@, 0);
            lemma_text_differs("D-A"@, "D+A"@, 1);
            lemma_text_differs("D-A"@, "A+D"@, 0);
            lemma_text_differs("D-A"@, "D+M"@, 1);
            lemma_text_differs("D-A"@, "M+D"@, 0);
        }
}

#[verifier::spinoff_prover]
proof fn lemma_comp_group3(c: u16)
    requires
        c == 0x0187 || c == 0x01D3 || c == 0x01C7 || c == 0x0180 || c == 0x01C0 || c == 0x0195 || c == 0x01D5,
    ensures
        comp_code(comp_mnemonic(c)) == Some(c),
        is_mnemonic_text(comp_mnemonic(c)),
{
    reveal_strlit("0");
    reveal_strlit("1");
    reveal_strlit("-1");
    reveal_strlit("D");
    reveal_strlit("A");
    reveal_strlit("M");
    reveal_strlit("!D");
    reveal_strlit("!A");
    reveal_strlit("!M");
    reveal_strlit("-D");
    reveal_strlit("-A");
    reveal_strlit("-M");
    reveal_strlit("D+1");
    reveal_strlit("A+1");
    reveal_strlit("M+1");
    reveal_strlit("D-1");
    reveal_strlit("A-1");
    reveal_strlit("M-1");
    reveal_strlit("D+A");
    reveal_strlit("A+D");
    reveal_strlit("D+M");
    reveal_strlit("M+D");
    reveal_strlit("D-A");
    reveal_strlit("A-D");
    reveal_strlit("D-M");
    reveal_strlit("M-D");
    reveal_strlit("D&A");
    reveal_strlit("A&D");
    reveal_strlit("D&M");
    reveal_strlit("M&D");
    reveal_strlit("D|A");
    reveal_strlit("A|D");
    reveal_strlit("D|M");
    reveal_strlit("M|D");
    if c == 0x0187 {
            lemma_text_differs("A-D"@, "0"@, 0);
            lemma_text_differs("A-D"@, "1"@, 0);
            lemma_text_differs("A-D"@, "-1"@, 0);
            lemma_text_differs("A-D"@, "D"@, 0);
            lemma_text_differs("A-D"@, "A"@, 0);
            lemma_text_differs("A-D"@, "M"@, 0);
            lemma_text_differs("A-D"@, "!D"@, 0);
            lemma_text_differs("A-D"@, "!A"@, 0);
            lemma_text_differs("A-D"@, "!M"@, 0);
            lemma_text_differs("A-D"@, "-D"@, 0);
            lemma_text_differs("A-D"@, "-A"@, 0);
            lemma_text_differs("A-D"@, "-M"@, 0);
            lemma_text_differs("A-D"@, "D+1"@, 0);
            lemma_text_differs("A-D"@, "A+1"@, 1);
            lemma_text_differs("A-D"@, "M+1"@, 0);
            lemma_text_differs("A-D"@, "D-1"@, 0);
            lemma_text_differs("A-D"@, "A-1"@, 2);
            lemma_text_differs("A-D"@, "M-1"@, 0);
            lemma_text_differs("A-D"@, "D+A"@, 0);
            lemma_text_differs("A-D"@, "A+D"@, 1);
            lemma_text_differs("A-D"@, "D+M"@, 0);
            lemma_text_differs("A-D"@, "M+D"@, 0);
            lemma_text_differs("A-D"@, "D-A"@, 0);
        } else if c == 0x01D3 {
            lemma_text_differs("D-M"@, "0"@, 0);
            lemma_text_differs("D-M"@, "1"@, 0);
            lemma_text_differs("D-M"@, "-1"@, 0);
            lemma_text_differs("D-M"@, "D"@, 0);
            lemma_text_differs("D-M"@, "A"@, 0);
            lemma_text_differs("D-M"@, "M"@, 0);
            lemma_text_differs("D-M"@, "!D"@, 0);
            lemma_text_differs("D-M"@, "!A"@, 0);
            lemma_text_differs("D-M"@, "!M"@, 0);
            lemma_text_differs("D-M"@, "-D"@, 0);
            lemma_text_differs("D-M"@, "-A"@, 0);
            lemma_text_differs("D-M"@, "-M"@, 0);
            lemma_text_differs("D-M"@, "D+1"@, 1);
            lemma_text_differs("D-M"@, "A+1"@, 0);
            lemma_text_differs("D-M"@, "M+1"@, 0);
            lemma_text_differs("D-M"@, "D-1"@, 2);
            lemma_text_differs("D-M"@, "A-1"@, 0);
            lemma_text_differs("D-M"@, "M-1"@, 0);
            lemma_text_differs("D-M"@, "D+A"@, 1);
            lemma_text_differs("D-M"@, "A+D"@, 0);
            lemma_text_differs("D-M"@, "D+M"@, 1);
            lemma_text_differs("D-M"@, "M+D"@, 0);
            lemma_text_differs("D-M"@, "D-A"@, 2);
            lemma_text_differs("D-M"@, "A-D"@, 0);
        } else if c == 0x01C7 {
            lemma_text_differs("M-D"@, "0"@, 0);
            lemma_text_differs("M-D"@, "1"@, 0);
            lemma_text_differs("M-D"@, "-1"@, 0);
            lemma_text_differs("M-D"@, "D"@, 0);
            lemma_text_differs("M-D"@, "A"@, 0);
            lemma_text_differs("M-D"@, "M"@, 0);
            lemma_text_differs("M-D"@, "!D"@, 0);
            lemma_text_differs("M-D"@, "!A"@, 0);
            lemma_text_differs("M-D"@, "!M"@, 0);
            lemma_text_differs("M-D"@, "-D"@, 0);
            lemma_text_differs("M-D"@, "-A"@, 0);
            lemma_text_differs("M-D"@, "-M"@, 0);
            lemma_text_differs("M-D"@, "D+1"@, 0);
            lemma_text_differs("M-D"@, "A+1"@, 0);
            lemma_text_differs("M-D"@, "M+1"@, 1);
            lemma_text_differs("M-D"@, "D-1"@, 0);
            lemma_text_differs("M-D"@, "A-1"@, 0);
            lemma_text_differs("M-D"@, "M-1"@, 2);
            lemma_text_differs("M-D"@, "D+A"@, 0);
            lemma_text_differs("M-D"@, "A+D"@, 0);
            lemma_text_differs("M-D"@, "D+M"@, 0);
            lemma_text_differs("M-D"@, "M+D"@, 1);
            lemma_text_differs("M-D"@, "D-A"@, 0);
            lemma_text_differs("M-D"@, "A-D"@, 0);
            lemma_text_differs("M-D"@, "D-M"@, 0);
        } else if c == 0x0180 {
            lemma_text_differs("A&D"@, "0"@, 0);
            lemma_text_differs("A&D"@, "1"@, 0);
            lemma_text_differs("A&D"@, "-1"@, 0);
            lemma_text_differs("A&D"@, "D"@, 0);
            lemma_text_differs("A&D"@, "A"@, 0);
            lemma_text_differs("A&D"@, "M"@, 0);
            lemma_text_differs("A&D"@, "!D"@, 0);
            lemma_text_differs("A&D"@, "!A"@, 0);
            lemma_text_differs("A&D"@, "!M"@, 0);
            lemma_text_differs("A&D"@, "-D"@, 0);
            lemma_text_differs("A&D"@, "-A"@, 0);
            lemma_text_differs("A&D"@, "-M"@, 0);
            lemma_text_differs("A&D"@, "D+1"@, 0);
            lemma_text_differs("A&D"@, "A+1"@, 1);
            lemma_text_differs("A&D"@, "M+1"@, 0);
            lemma_text_differs("A&D"@, "D-1"@, 0);
            lemma_text_differs("A&D"@, "A-1"@, 1);
            lemma_text_differs("A&D"@, "M-1"@, 0);
            lemma_text_differs("A&D"@, "D+A"@, 0);
            lemma_text_differs("A&D"@, "A+D"@, 1);
            lemma_text_differs("A&D"@, "D+M"@, 0);
            lemma_text_differs("A&D"@, "M+D"@, 0);
            lemma_text_differs("A&D"@, "D-A"@, 0);
            lemma_text_differs("A&D"@, "A-D"@, 1);
            lemma_text_differs("A&D"@, "D-M"@, 0);
            lemma_text_differs("A&D"@, "M-D"@, 0);
            lemma_text_differs("A&D"@, "D&A"@, 0);
        } else if c == 0x01C0 {
            lemma_text_differs("D&M"@, "0"@, 0);
            lemma_text_differs("D&M"@, "1"@, 0);
            lemma_text_differs("D&M"@, "-1"@, 0);
            lemma_text_differs("D&M"@, "D"@, 0);
            lemma_text_differs("D&M"@, "A"@, 0);
            lemma_text_differs("D&M"@, "M"@, 0);
            lemma_text_differs("D&M"@, "!D"@, 0);
            lemma_text_differs("D&M"@, "!A"@, 0);
            lemma_text_differs("D&M"@, "!M"@, 0);
            lemma_text_differs("D&M"@, "-D"@, 0);
            lemma_text_differs("D&M"@, "-A"@, 0);
            lemma_text_differs("D&M"@, "-M"@, 0);
            lemma_text_differs("D&M"@, "D+1"@, 1);
            lemma_text_differs("D&M"@, "A+1"@, 0);
            lemma_text_differs("D&M"@, "M+1"@, 0);
            lemma_text_differs("D&M"@, "D-1"@, 1);
            lemma_text_differs("D&M"@, "A-1"@, 0);
            lemma_text_differs("D&M"@, "M-1"@, 0);
            lemma_text_differs("D&M"@, "D+A"@, 1);
            lemma_text_differs("D&M"@, "A+D"@, 0);
            lemma_text_differs("D&M"@, "D+M"@, 1);
            lemma_text_differs("D&M"@, "M+D"@, 0);
            lemma_text_differs("D&M"@, "D-A"@, 1);
            lemma_text_differs("D&M"@, "A-D"@, 0);
            lemma_text_differs("D&M"@, "D-M"@, 1);
            lemma_text_differs("D&M"@, "M-D"@, 0);
            lemma_text_differs("D&M"@, "D&A"@, 2);
            lemma_text_differs("D&M"@, "A&D"@, 0);
        } else if c == 0x0195 {
            lemma_text_differs("A|D"@, "0"@, 0);
            lemma_text_differs("A|D"@, "1"@, 0);
            lemma_text_differs("A|D"@, "-1"@, 0);
            lemma_text_differs("A|D"@, "D"@, 0);
            lemma_text_differs("A|D"@, "A"@, 0);
            lemma_text_differs("A|D"@, "M"@, 0);
            lemma_text_differs("A|D"@, "!D"@, 0);
            lemma_text_differs("A|D"@, "!A"@, 0);
            lemma_text_differs("A|D"@, "!M"@, 0);
            lemma_text_differs("A|D"@, "-D"@, 0);
            lemma_text_differs("A|D"@, "-A"@, 0);
            lemma_text_differs("A|D"@, "-M"@, 0);
            lemma_text_differs("A|D"@, "D+1"@, 0);
            lemma_text_differs("A|D"@, "A+1"@, 1);
            lemma_text_differs("A|D"@, "M+1"@, 0);
            lemma_text_differs("A|D"@, "D-1"@, 0);
            lemma_text_differs("A|D"@, "A-1"@, 1);
            lemma_text_differs("A|D"@, "M-1"@, 0);
            lemma_text_differs("A|D"@, "D+A"@, 0);
            lemma_text_differs("A|D"@, "A+D"@, 1);
            lemma_text_differs("A|D"@, "D+M"@, 0);
            lemma_text_differs("A|D"@, "M+D"@, 0);
            lemma_text_differs("A|D"@, "D-A"@, 0);
            lemma_text_differs("A|D"@, "A-D"@, 1);
            lemma_text_differs("A|D"@, "D-M"@, 0);
            lemma_text_differs("A|D"@, "M-D"@, 0);
            lemma_text_differs("A|D"@, "D&A"@, 0);
            lemma_text_differs("A|D"@, "A&D"@, 1);
            lemma_text_differs("A|D"@, "D&M"@, 0);
            lemma_text_differs("A|D"@, "M&D"@, 0);
            lemma_text_differs("A|D"@, "D|A"@, 0);
        } else if c == 0x01D5 {
            lemma_text_differs("D|M"@, "0"@, 0);
            lemma_text_differs("D|M"@, "1"@, 0);
            lemma_text_differs("D|M"@, "-1"@, 0);
            lemma_text_differs("D|M"@, "D"@, 0);
            lemma_text_differs("D|M"@, "A"@, 0);
            lemma_text_differs("D|M"@, "M"@, 0);
            lemma_text_differs("D|M"@, "!D"@, 0);
            lemma_text_differs("D|M"@, "!A"@, 0);
            lemma_text_differs("D|M"@, "!M"@, 0);
            lemma_text_differs("D|M"@, "-D"@, 0);
            lemma_text_differs("D|M"@, "-A"@, 0);
            lemma_text_differs("D|M"@, "-M"@, 0);
            lemma_text_differs("D|M"@, "D+1"@, 1);
            lemma_text_differs("D|M"@, "A+1"@, 0);
            lemma_text_differs("D|M"@, "M+1"@, 0);
            lemma_text_differs("D|M"@, "D-1"@, 1);
            lemma_text_differs("D|M"@, "A-1"@, 0);
            lemma_text_differs("D|M"@, "M-1"@, 0);
            lemma_text_differs("D|M"@, "D+A"@, 1);
            lemma_text_differs("D|M"@, "A+D"@, 0);
            lemma_text_differs("D|M"@, "D+M"@, 1);
            lemma_text_differs("D|M"@, "M+D"@, 0);
            lemma_text_differs("D|M"@, "D-A"@, 1);
            lemma_text_differs("D|M"@, "A-D"@, 0);
            lemma_text_differs("D|M"@, "D-M"@, 1);
            lemma_text_differs("D|M"@, "M-D"@, 0);
            lemma_text_differs("D|M"@, "D&A"@, 1);
            lemma_text_differs("D|M"@, "A&D"@, 0);
            lemma_text_differs("D|M"@, "D&M"@, 1);
            lemma_text_differs("D|M"@, "M&D"@, 0);
            lemma_text_differs("D|M"@, "D|A"@, 2);
            lemma_text_differs("D|M"@, "A|D"@, 0);
        }
}

/// A computation mnemonic reads back as its bits.
proof fn lemma_comp_reads(c: u16)
    requires
        comp_mnemonic(c) != "???"@,
    ensures
        comp_code(comp_mnemonic(c)) == Some(c),
        is_mnemonic_text(comp_mnemonic(c)),
{
    if c == 0x01AA || c == 0x01BF || c == 0x01BA || c == 0x018C || c == 0x01B0 || c == 0x01F0 || c == 0x018D {
        lemma_comp_group0(c);
    } else if c == 0x01B1 || c == 0x01F1 || c == 0x018F || c == 0x01B3 || c == 0x01F3 || c == 0x019F || c == 0x01B7 {
        lemma_comp_group1(c);
    } else if c == 0x01F7 || c == 0x018E || c == 0x01B2 || c == 0x01F2 || c == 0x0182 || c == 0x01C2 || c == 0x0193 {
        lemma_comp_group2(c);
    } else if c == 0x0187 || c == 0x01D3 || c == 0x01C7 || c == 0x0180 || c == 0x01C0 || c == 0x0195 || c == 0x01D5 {
        lemma_comp_group3(c);
    }
}


/// The destination text of bits `d`, before text without '=', reads as those bits.
proof fn lemma_dest_reads(d: u16, rest: Seq<char>)
    requires
        d < 8,
        forall|i: int| 0 <= i < rest.len() ==> #[trigger] rest[i] != '=',
    ensures
        dest_step(dest_text(d) + rest, 0, (dest_text(d) + rest).len() as int) matches Parsed::Done(dd, k)
            && dst_code(dd) == d && k == dest_text(d).len(),
        forall|i: int| 0 <= i < dest_text(d).len() ==> {
            let ch = #[trigger] dest_text(d)[i];
            ch == 'A' || ch == 'M' || ch == 'D' || ch == '='
        },
        dest_text(d).len() > 0 ==> dest_text(d)[0] != '=',
        dest_text(d).len() <= 4,
{
    reveal_strlit("");
    reveal_strlit("M=");
    reveal_strlit("D=");
    reveal_strlit("MD=");
    reveal_strlit("A=");
    reveal_strlit("AM=");
    reveal_strlit("AD=");
    reveal_strlit("AMD=");
    reveal_with_fuel(count_in, 4);
    let t = dest_text(d);
    let s = t + rest;
    let n = s.len() as int;
    if d == 0 {
        assert(s =~= rest);
        lemma_run_until(s, 0, n, n, CharClass::NotEquals);
    } else {
        let q = t.len() - 1;
        assert(s[q] == '=');
        assert forall|i: int| 0 <= i < q implies in_class(#[trigger] s[i], CharClass::NotEquals) && in_class(
            s[i],
            CharClass::Amd,
        ) by {
            assert(s[i] == t[i]);
        }
        lemma_run_until(s, 0, q, n, CharClass::NotEquals);
        lemma_run_until(s, 0, q, q, CharClass::Amd);
        lemma_run_until(s, q, q, q, CharClass::SpaceTab);
        assert(count_in(s, 0, q, 'A') == count_in(t, 0, q, 'A'));
        assert(count_in(s, 0, q, 'M') == count_in(t, 0, q, 'M'));
        assert(count_in(s, 0, q, 'D') == count_in(t, 0, q, 'D'));
    }
}

/// The jump text of bits `j`, at the end of `s`, reads as those bits.
proof fn lemma_jump_reads(s: Seq<char>, i: int, j: u16)
    requires
        j < 8,
        0 <= i <= s.len(),
        s.subrange(i, s.len() as int) == jump_text(j),
    ensures
        jump_step(s, i, s.len() as int) == (jump_of_code(j), s.len() as int),
{
    reveal_strlit("");
    reveal_strlit(";JGT");
    reveal_strlit(";JEQ");
    reveal_strlit(";JGE");
    reveal_strlit(";JLT");
    reveal_strlit(";JNE");
    reveal_strlit(";JLE");
    reveal_strlit(";JMP");
    reveal_strlit("JEQ");
    reveal_strlit("JGE");
    reveal_strlit("JGT");
    reveal_strlit("JLE");
    reveal_strlit("JLT");
    reveal_strlit("JMP");
    reveal_strlit("JNE");
    let n = s.len() as int;
    if j != 0 {
        let k = i + 1;
        assert(jump_text(j).len() == 4);
        assert(s.subrange(i, n).len() == 4);
        assert(s[i] == s.subrange(i, n)[0]);
        assert(s[k] == s.subrange(i, n)[1]);
        assert(s[k + 1] == s.subrange(i, n)[2]);
        assert(s[k + 2] == s.subrange(i, n)[3]);
        lemma_run_until(s, k, k, n, CharClass::SpaceTab);
        if j == 1 {
            lemma_no_match(s, k, "JEQ"@, 1);
            lemma_no_match(s, k, "JGE"@, 2);
            assert(s.subrange(k, k + 3) =~= "JGT"@);
        } else if j == 2 {
            assert(s.subrange(k, k + 3) =~= "JEQ"@);
        } else if j == 3 {
            lemma_no_match(s, k, "JEQ"@, 1);
            assert(s.subrange(k, k + 3) =~= "JGE"@);
        } else if j == 4 {
            lemma_no_match(s, k, "JEQ"@, 1);
            lemma_no_match(s, k, "JGE"@, 1);
            lemma_no_match(s, k, "JGT"@, 1);
            lemma_no_match(s, k, "JLE"@, 2);
            assert(s.subrange(k, k + 3) =~= "JLT"@);
        } else if j == 5 {
            lemma_no_match(s, k, "JEQ"@, 1);
            lemma_no_match(s, k, "JGE"@, 1);
            lemma_no_match(s, k, "JGT"@, 1);
            lemma_no_match(s, k, "JLE"@, 1);
            lemma_no_match(s, k, "JLT"@, 1);
            lemma_no_match(s, k, "JMP"@, 1);
            assert(s.subrange(k, k + 3) =~= "JNE"@);
        } else if j == 6 {
            lemma_no_match(s, k, "JEQ"@, 1);
            lemma_no_match(s, k, "JGE"@, 1);
            lemma_no_match(s, k, "JGT"@, 1);
            assert(s.subrange(k, k + 3) =~= "JLE"@);
        } else if j == 7 {
            lemma_no_match(s, k, "JEQ"@, 1);
            lemma_no_match(s, k, "JGE"@, 1);
            lemma_no_match(s, k, "JGT"@, 1);
            lemma_no_match(s, k, "JLE"@, 1);
            lemma_no_match(s, k, "JLT"@, 1);
            assert(s.subrange(k, k + 3) =~= "JMP"@);
        }
    }
}

/// The characters of jump texts.
proof fn lemma_jump_chars(j: u16)
    requires
        j < 8,
    ensures
        forall|i: int| 0 <= i < jump_text(j).len() ==> {
            let ch = #[trigger] jump_text(j)[i];
            ch == ';' || ch == 'J' || ch == 'G' || ch == 'T' || ch == 'E' || ch == 'Q' || ch == 'L' || ch == 'N'
                || ch == 'M' || ch == 'P'
        },
        jump_text(j).len() == 0 || jump_text(j)[0] == ';',
        jump_text(j).len() <= 4,
{
    reveal_strlit("");
    reveal_strlit(";JGT");
    reveal_strlit(";JEQ");
    reveal_strlit(";JGE");
    reveal_strlit(";JLT");
    reveal_strlit(";JNE");
    reveal_strlit(";JLE");
    reveal_strlit(";JMP");
}

/// Text without whitespace is its own text with whitespace removed.
proof fn lemma_strip_plain(t: Seq<char>)
    requires
        forall|i: int| 0 <= i < t.len() ==> !is_unicode_whitespace(#[trigger] t[i]),
    ensures
        strip_whitespace(t) == t,
    decreases t.len(),
{
    if t.len() > 0 {
        lemma_strip_plain(t.drop_last());
        assert(t.drop_last().push(t.last()) =~= t);
    }
}

/// A number has at most one more digit than its value.
proof fn lemma_digits_len(v: nat)
    ensures
        nat_digits(v).len() <= v + 1,
    decreases v,
{
    if v >= 10 {
        lemma_digits_len(v / 10);
    }
}

/// The value of digits, read in place.
proof fn lemma_digits_value_range(s: Seq<char>, i: int, j: int)
    requires
        0 <= i <= j <= s.len(),
    ensures
        digits_value(s, i, j) == decimal_value(s.subrange(i, j)),
    decreases j - i,
{
    if j > i {
        lemma_digits_value_range(s, i, j - 1);
        assert(s.subrange(i, j).drop_last() =~= s.subrange(i, j - 1));
    } else {
        assert(s.subrange(i, j) =~= Seq::<char>::empty());
    }
}

/// No computation mnemonic starts with '@'.
proof fn lemma_at_is_no_mnemonic(t: Seq<char>)
    requires
        t.len() > 0,
        t[0] == '@',
    ensures
        comp_code(t) is None,
{
    reveal_strlit("0");
    reveal_strlit("1");
    reveal_strlit("-1");
    reveal_strlit("D");
    reveal_strlit("A");
    reveal_strlit("M");
    reveal_strlit("!D");
    reveal_strlit("!A");
    reveal_strlit("!M");
    reveal_strlit("-D");
    reveal_strlit("-A");
    reveal_strlit("-M");
    reveal_strlit("D+1");
    reveal_strlit("A+1");
    reveal_strlit("M+1");
    reveal_strlit("D-1");
    reveal_strlit("A-1");
    reveal_strlit("M-1");
    reveal_strlit("D+A");
    reveal_strlit("A+D");
    reveal_strlit("D+M");
    reveal_strlit("M+D");
    reveal_strlit("D-A");
    reveal_strlit("A-D");
    reveal_strlit("D-M");
    reveal_strlit("M-D");
    reveal_strlit("D&A");
    reveal_strlit("A&D");
    reveal_strlit("D&M");
    reveal_strlit("M&D");
    reveal_strlit("D|A");
    reveal_strlit("A|D");
    reveal_strlit("D|M");
    reveal_strlit("M|D");
    lemma_text_differs(t, "0"@, 0);
    lemma_text_differs(t, "1"@, 0);
    lemma_text_differs(t, "-1"@, 0);
    lemma_text_differs(t, "D"@, 0);
    lemma_text_differs(t, "A"@, 0);
    lemma_text_differs(t, "M"@, 0);
    lemma_text_differs(t, "!D"@, 0);
    lemma_text_differs(t, "!A"@, 0);
    lemma_text_differs(t, "!M"@, 0);
    lemma_text_differs(t, "-D"@, 0);
    lemma_text_differs(t, "-A"@, 0);
    lemma_text_differs(t, "-M"@, 0);
    lemma_text_differs(t, "D+1"@, 0);
    lemma_text_differs(t, "A+1"@, 0);
    lemma_text_differs(t, "M+1"@, 0);
    lemma_text_differs(t, "D-1"@, 0);
    lemma_text_differs(t, "A-1"@, 0);
    lemma_text_differs(t, "M-1"@, 0);
    lemma_text_differs(t, "D+A"@, 0);
    lemma_text_differs(t, "A+D"@, 0);
    lemma_text_differs(t, "D+M"@, 0);
    lemma_text_differs(t, "M+D"@, 0);
    lemma_text_differs(t, "D-A"@, 0);
    lemma_text_differs(t, "A-D"@, 0);
    lemma_text_differs(t, "D-M"@, 0);
    lemma_text_differs(t, "M-D"@, 0);
    lemma_text_differs(t, "D&A"@, 0);
    lemma_text_differs(t, "A&D"@, 0);
    lemma_text_differs(t, "D&M"@, 0);
    lemma_text_differs(t, "M&D"@, 0);
    lemma_text_differs(t, "D|A"@, 0);
    lemma_text_differs(t, "A|D"@, 0);
    lemma_text_differs(t, "D|M"@, 0);
    lemma_text_differs(t, "M|D"@, 0);
}

proof fn lemma_c_word(raw: u16)
    by (bit_vector)
    requires
        raw & (1u16 << 15u32) != 0,
    ensures
        0x8000u16 | (((raw >> 6u16) & 0x01FFu16) << 6u16) | (((raw >> 3u16) & 7u16) << 3u16) | (raw & 7u16) == raw,
        (raw >> 3u16) & 7u16 < 8,
        raw & 7u16 < 8,
{
}

proof fn lemma_a_word(raw: u16)
    by (bit_vector)
    requires
        !(raw & (1u16 << 15u32) != 0),
    ensures
        raw < 0x8000,
{
}

/// What the assembly text of an instruction word reads as: the word itself for a
/// C-instruction, `@` and its number for an A-instruction.
pub open spec fn text_item(raw: u16) -> AsmItem {
    if is_c_instruction(raw) { AsmItem::Instr(raw) } else { AsmItem::AtNumber(raw as Word) }
}

#[verifier::spinoff_prover]
proof fn lemma_c_text_parses(raw: u16)
    requires
        is_c_instruction(raw),
        comp_mnemonic((raw >> 6u16) & 0x01FFu16) != "???"@,
    ensures
        line_step(instruction_text(raw), 0, instruction_text(raw).len() as int) == Some(Some(text_item(raw))),
        forall|i: int|
            0 <= i < instruction_text(raw).len() ==> in_class(#[trigger] instruction_text(raw)[i], CharClass::NotLineBreak),
{
    lemma_c_word(raw);
    let d = (raw >> 3u16) & 7u16;
    let c = (raw >> 6u16) & 0x01FFu16;
    let j = raw & 7u16;
    let t = dest_text(d);
    let m = comp_mnemonic(c);
    let jt = jump_text(j);
    let s = instruction_text(raw);
    let n = s.len() as int;
    assert(s == t + m + jt);
    lemma_comp_reads(c);
    lemma_jump_chars(j);
    assert forall|i: int| 0 <= i < (m + jt).len() implies #[trigger] (m + jt)[i] != '=' by {
        if i < m.len() {
            assert(comp_char(m[i]));
        } else {
            assert((m + jt)[i] == jt[i - m.len()]);
        }
    }
    lemma_dest_reads(d, m + jt);
    assert(s =~= t + (m + jt));
    let k1 = t.len() as int;
    let q = k1 + m.len();
    assert forall|i: int|
        0 <= i < n implies in_class(#[trigger] s[i], CharClass::NotSlash) && in_class(s[i], CharClass::NotLineBreak)
        && !is_unicode_whitespace(s[i]) by {
        if i < k1 {
            assert(s[i] == t[i]);
        } else if i < q {
            assert(s[i] == m[i - k1]);
            assert(comp_char(m[i - k1]));
        } else {
            assert(s[i] == jt[i - q]);
        }
    }
    lemma_run_until(s, 0, n, n, CharClass::NotSlash);
    lemma_run_until(s, 0, 0, n, CharClass::SpaceTab);
    assert forall|i: int| k1 <= i < q implies in_class(#[trigger] s[i], CharClass::NotCalcEnd) by {
        assert(s[i] == m[i - k1]);
        assert(comp_char(m[i - k1]));
    }
    if q < n {
        assert(s[q] == jt[0]);
    }
    lemma_run_until(s, k1, q, n, CharClass::NotCalcEnd);
    assert(s.subrange(k1, q) =~= m);
    assert forall|i: int| 0 <= i < m.len() implies !is_unicode_whitespace(#[trigger] m[i]) by {
        assert(comp_char(m[i]));
    }
    lemma_strip_plain(m);
    assert(s.subrange(q, n) =~= jt);
    lemma_jump_reads(s, q, j);
    let dd = match dest_step(s, 0, n) {
        Parsed::Done(x, _) => x,
        _ => DestinationRegisters::NoDestination,
    };
    assert(jump_code(jump_of_code(j)) == j);
    assert(c_instruction_bits(dd, c, jump_of_code(j)) == raw);
    lemma_run_until(s, n, n, n, CharClass::SpaceTab);
    assert(dest_step(s, 0, n) == Parsed::Done(dd, k1 as usize));
    assert(calc_step(s, k1, n) == Parsed::Done(c, q as usize));
    assert(c_step(s, 0, n) == Parsed::Done(AsmItem::Instr(raw), n as usize));
    assert(instruction_step(s, 0, n) == Parsed::Done(AsmItem::Instr(raw), n as usize));
}

#[verifier::spinoff_prover]
proof fn lemma_a_text_parses(raw: u16)
    requires
        !is_c_instruction(raw),
    ensures
        line_step(instruction_text(raw), 0, instruction_text(raw).len() as int) == Some(Some(text_item(raw))),
        forall|i: int|
            0 <= i < instruction_text(raw).len() ==> in_class(#[trigger] instruction_text(raw)[i], CharClass::NotLineBreak),
{
    lemma_a_word(raw);
    let ds = nat_digits(raw as nat);
    lemma_digits_value(raw as nat);
    lemma_digits_len(raw as nat);
    let s = instruction_text(raw);
    let n = s.len() as int;
    assert(s == seq!['@'] + ds);
    assert forall|i: int|
        0 <= i < n implies in_class(#[trigger] s[i], CharClass::NotSlash) && in_class(s[i], CharClass::NotLineBreak)
        && in_class(s[i], CharClass::NotEquals) && in_class(s[i], CharClass::NotCalcEnd) && !is_unicode_whitespace(
        s[i],
    ) by {
        if i > 0 {
            assert(s[i] == ds[i - 1]);
            assert('0' <= ds[i - 1] <= '9');
        }
    }
    assert forall|i: int| 1 <= i < n implies in_class(#[trigger] s[i], CharClass::Digit) by {
        assert(s[i] == ds[i - 1]);
        assert('0' <= ds[i - 1] <= '9');
    }
    lemma_run_until(s, 0, n, n, CharClass::NotSlash);
    lemma_run_until(s, 0, 0, n, CharClass::SpaceTab);
    lemma_run_until(s, 0, n, n, CharClass::NotEquals);
    lemma_run_until(s, 0, n, n, CharClass::NotCalcEnd);
    lemma_strip_plain(s);
    assert(s.subrange(0, n) =~= s);
    lemma_at_is_no_mnemonic(s);
    assert(s[1] == ds[0]);
    lemma_run_until(s, 1, n, n, CharClass::Digit);
    lemma_digits_value_range(s, 1, n);
    assert(s.subrange(1, n) =~= ds);
    lemma_run_until(s, n, n, n, CharClass::SpaceTab);
    assert(dest_step(s, 0, n) == Parsed::<DestinationRegisters>::Done(DestinationRegisters::NoDestination, 0usize));
    assert(calc_step(s, 0, n) is Fail);
    assert(c_step(s, 0, n) is Fail);
    assert(number_step(s, 1, n) == Some((raw as Word, n)));
    assert(a_step(s, 0, n) == Parsed::Done(AsmItem::AtNumber(raw as Word), n as usize));
    assert(instruction_step(s, 0, n) == Parsed::Done(AsmItem::AtNumber(raw as Word), n as usize));
}

/// Reading the assembly text of an instruction word gives back the word: the text of an
/// A-instruction reads as `@` and its number, and that of a C-instruction whose
/// computation has a mnemonic as the same instruction word; as a program, the text is
/// that one line.
pub proof fn lemma_instruction_text_parses(raw: u16)
    requires
        is_c_instruction(raw) ==> comp_mnemonic((raw >> 6u16) & 0x01FFu16) != "???"@,
    ensures
        line_step(instruction_text(raw), 0, instruction_text(raw).len() as int) == Some(Some(text_item(raw))),
        parse_program(instruction_text(raw)) == Some(seq![text_item(raw)]),
{
    let s = instruction_text(raw);
    let n = s.len() as int;
    if is_c_instruction(raw) {
        lemma_c_text_parses(raw);
    } else {
        lemma_a_text_parses(raw);
    }
    lemma_run_until(s, 0, n, n, CharClass::NotLineBreak);
    assert(!lone_cr_at(s, n));
}

// ---------------------------------------------------------------- what the computation mnemonics compute

/// The value that an operand character of a computation mnemonic names: D, A, M, 0 or 1.
pub open spec fn operand_value(ch: char, d: Word, a: Word, m: Word) -> Option<Word> {
    if ch == 'D' {
        Some(d)
    } else if ch == 'A' {
        Some(a)
    } else if ch == 'M' {
        Some(m)
    } else if ch == '0' {
        Some(0)
    } else if ch == '1' {
        Some(1)
    } else {
        None
    }
}

/// The arithmetic a computation mnemonic writes, read from its characters, with D, A and M
/// holding `d`, `a` and `m`: an operand; `-` or `!` before an operand (negation or
/// complement); or two operands joined by `+`, `-`, `&` or `|`, in 16-bit arithmetic.
pub open spec fn mnemonic_value(t: Seq<char>, d: Word, a: Word, m: Word) -> Option<Word> {
    if t.len() == 1 {
        operand_value(t[0], d, a, m)
    } else if t.len() == 2 {
        match operand_value(t[1], d, a, m) {
            Some(v) => if t[0] == '-' {
                Some(i16_specs::wrapping_sub(0, v))
            } else if t[0] == '!' {
                Some(!v)
            } else {
                None
            },
            None => None,
        }
    } else if t.len() == 3 {
        match (operand_value(t[0], d, a, m), operand_value(t[2], d, a, m)) {
            (Some(x), Some(y)) => if t[1] == '+' {
                Some(i16_specs::wrapping_add(x, y))
            } else if t[1] == '-' {
                Some(i16_specs::wrapping_sub(x, y))
            } else if t[1] == '&' {
                Some(x & y)
            } else if t[1] == '|' {
                Some(x | y)
            } else {
                None
            },
            _ => None,
        }
    } else {
        None
    }
}

/// What the CPU's ALU computes for a C-instruction word `raw`, with D, A and M holding
/// `d`, `a` and `m`: the ALU on D and on A or M, as the instruction's a-bit selects.
pub open spec fn comp_alu(raw: u16, d: Word, a: Word, m: Word) -> Word {
    alu(d, if flag(raw, 12) { m } else { a }, raw)
}

/// The ALU on each computation field of the assembler's table.
proof fn lemma_alu_fields(d: Word, a: Word, m: Word)
    by (bit_vector)
    ensures
        comp_alu(0x01AAu16 << 6u16, d, a, m) == 0,
        comp_alu(0x01BFu16 << 6u16, d, a, m) == 1,
        comp_alu(0x01BAu16 << 6u16, d, a, m) == i16_specs::wrapping_sub(0, 1),
        comp_alu(0x018Cu16 << 6u16, d, a, m) == d,
        comp_alu(0x01B0u16 << 6u16, d, a, m) == a,
        comp_alu(0x01F0u16 << 6u16, d, a, m) == m,
        comp_alu(0x018Du16 << 6u16, d, a, m) == !d,
        comp_alu(0x01B1u16 << 6u16, d, a, m) == !a,
        comp_alu(0x01F1u16 << 6u16, d, a, m) == !m,
        comp_alu(0x018Fu16 << 6u16, d, a, m) == i16_specs::wrapping_sub(0, d),
        comp_alu(0x01B3u16 << 6u16, d, a, m) == i16_specs::wrapping_sub(0, a),
        comp_alu(0x01F3u16 << 6u16, d, a, m) == i16_specs::wrapping_sub(0, m),
        comp_alu(0x019Fu16 << 6u16, d, a, m) == i16_specs::wrapping_add(d, 1),
        comp_alu(0x01B7u16 << 6u16, d, a, m) == i16_specs::wrapping_add(a, 1),
        comp_alu(0x01F7u16 << 6u16, d, a, m) == i16_specs::wrapping_add(m, 1),
        comp_alu(0x018Eu16 << 6u16, d, a, m) == i16_specs::wrapping_sub(d, 1),
        comp_alu(0x01B2u16 << 6u16, d, a, m) == i16_specs::wrapping_sub(a, 1),
        comp_alu(0x01F2u16 << 6u16, d, a, m) == i16_specs::wrapping_sub(m, 1),
        comp_alu(0x0182u16 << 6u16, d, a, m) == i16_specs::wrapping_add(d, a),
        comp_alu(0x0182u16 << 6u16, d, a, m) == i16_specs::wrapping_add(a, d),
        comp_alu(0x01C2u16 << 6u16, d, a, m) == i16_specs::wrapping_add(d, m),
        comp_alu(0x01C2u16 << 6u16, d, a, m) == i16_specs::wrapping_add(m, d),
        comp_alu(0x0193u16 << 6u16, d, a, m) == i16_specs::wrapping_sub(d, a),
        comp_alu(0x0187u16 << 6u16, d, a, m) == i16_specs::wrapping_sub(a, d),
        comp_alu(0x01D3u16 << 6u16, d, a, m) == i16_specs::wrapping_sub(d, m),
        comp_alu(0x01C7u16 << 6u16, d, a, m) == i16_specs::wrapping_sub(m, d),
        comp_alu(0x0180u16 << 6u16, d, a, m) == d & a,
        comp_alu(0x0180u16 << 6u16, d, a, m) == a & d,
        comp_alu(0x01C0u16 << 6u16, d, a, m) == d & m,
        comp_alu(0x01C0u16 << 6u16, d, a, m) == m & d,
        comp_alu(0x0195u16 << 6u16, d, a, m) == d | a,
        comp_alu(0x0195u16 << 6u16, d, a, m) == a | d,
        comp_alu(0x01D5u16 << 6u16, d, a, m) == d | m,
        comp_alu(0x01D5u16 << 6u16, d, a, m) == m | d,
{
}

/// A C-instruction with no destination and no jump is its computation field shifted into
/// place below the top bit.
proof fn lemma_c_bits_no_dest(c: u16)
    ensures
        c_instruction_bits(DestinationRegisters::NoDestination, c, JumpCondition::NoJump) == 0x8000u16 | (c << 6u16),
{
    assert(0x8000u16 | (c << 6u16) | (0u16 << 3u16) | 0u16 == 0x8000u16 | (c << 6u16)) by (bit_vector);
}

/// The ALU on a C-instruction word depends only on its bits 6 to 12.
proof fn lemma_alu_field_bits(c: u16, d: Word, a: Word, m: Word)
    by (bit_vector)
    requires
        c < 0x0200,
    ensures
        comp_alu(0x8000u16 | (c << 6u16), d, a, m) == comp_alu(c << 6u16, d, a, m),
{
}

/// Every computation mnemonic assembles to the computation that its text writes: for all
/// values of D, A and M, the ALU on the computation field that the assembler gives a
/// mnemonic (with the a-bit choosing A or M) computes the mnemonic's arithmetic, so `D+A`
/// adds, `D-A` subtracts D minus A, `A+D` is `D+A`, and so on.
#[verifier::spinoff_prover]
#[verifier::rlimit(60)]
pub proof fn lemma_comp_code_computes(t: Seq<char>, d: Word, a: Word, m: Word)
    requires
        comp_code(t) is Some,
    ensures
        comp_code(t).unwrap() < 0x0200,
        mnemonic_value(t, d, a, m) == Some(
            comp_alu(c_instruction_bits(DestinationRegisters::NoDestination, comp_code(t).unwrap(), JumpCondition::NoJump), d, a, m),
        ),
{
    let c = comp_code(t).unwrap();
    lemma_alu_fields(d, a, m);
    lemma_c_bits_no_dest(c);
    lemma_alu_field_bits(c, d, a, m);
    if t == "0"@ {
        reveal_strlit("0");
    } else if t == "1"@ {
        reveal_strlit("1");
    } else if t == "-1"@ {
        reveal_strlit("-1");
    } else if t == "D"@ {
        reveal_strlit("D");
    } else if t == "A"@ {
        reveal_strlit("A");
    } else if t == "M"@ {
        reveal_strlit("M");
    } else if t == "!D"@ {
        reveal_strlit("!D");
    } else if t == "!A"@ {
        reveal_strlit("!A");
    } else if t == "!M"@ {
        reveal_strlit("!M");
    } else if t == "-D"@ {
        reveal_strlit("-D");
    } else if t == "-A"@ {
        reveal_strlit("-A");
    } else if t == "-M"@ {
        reveal_strlit("-M");
    } else if t == "D+1"@ {
        reveal_strlit("D+1");
    } else if t == "A+1"@ {
        reveal_strlit("A+1");
    } else if t == "M+1"@ {
        reveal_strlit("M+1");
    } else if t == "D-1"@ {
        reveal_strlit("D-1");
    } else if t == "A-1"@ {
        reveal_strlit("A-1");
    } else if t == "M-1"@ {
        reveal_strlit("M-1");
    } else if t == "D+A"@ {
        reveal_strlit("D+A");
    } else if t == "A+D"@ {
        reveal_strlit("A+D");
    } else if t == "D+M"@ {
        reveal_strlit("D+M");
    } else if t == "M+D"@ {
        reveal_strlit("M+D");
    } else if t == "D-A"@ {
        reveal_strlit("D-A");
    } else if t == "A-D"@ {
        reveal_strlit("A-D");
    } else if t == "D-M"@ {
        reveal_strlit("D-M");
    } else if t == "M-D"@ {
        reveal_strlit("M-D");
    } else if t == "D&A"@ {
        reveal_strlit("D&A");
    } else if t == "A&D"@ {
        reveal_strlit("A&D");
    } else if t == "D&M"@ {
        reveal_strlit("D&M");
    } else if t == "M&D"@ {
        reveal_strlit("M&D");
    } else if t == "D|A"@ {
        reveal_strlit("D|A");
    } else if t == "A|D"@ {
        reveal_strlit("A|D");
    } else if t == "D|M"@ {
        reveal_strlit("D|M");
    } else if t == "M|D"@ {
        reveal_strlit("M|D");
    }
}

/// The destination bits of the Hack machine: A is the high bit, D the middle one and M
/// the low one. A destination assembles where each of A, M and D occurs at most once and
/// one of them occurs, to the bits of the registers that occur.
pub proof fn lemma_dest_bits(a: int, m: int, d: int)
    ensures
        dest_of_counts(a, m, d) is Some <==> (0 <= a <= 1 && 0 <= m <= 1 && 0 <= d <= 1 && a + m + d >= 1),
        dest_of_counts(a, m, d) matches Some(r) ==> dst_code(r) == 4 * a + 2 * d + m,
{
}

/// Whether the jump that a jump mnemonic's name (`J` and two letters) says holds of `v`:
/// `GT` greater than 0, `EQ` equal, `GE` greater or equal, `LT` less, `NE` not equal,
/// `LE` less or equal, `MP` always.
pub open spec fn jump_name_holds(t: Seq<char>, v: Word) -> bool {
    if t[1] == 'G' && t[2] == 'T' {
        v > 0
    } else if t[1] == 'E' && t[2] == 'Q' {
        v == 0
    } else if t[1] == 'G' && t[2] == 'E' {
        v >= 0
    } else if t[1] == 'L' && t[2] == 'T' {
        v < 0
    } else if t[1] == 'N' && t[2] == 'E' {
        v != 0
    } else if t[1] == 'L' && t[2] == 'E' {
        v <= 0
    } else {
        t[1] == 'M' && t[2] == 'P'
    }
}

/// A jump part of a C-instruction assembles to the jump its mnemonic names: where the
/// parser reads a jump, it has read a mnemonic just before where it stops, and the
/// condition it gives holds of a value exactly where the mnemonic's name says.
pub proof fn lemma_jump_text_meaning(s: Seq<char>, i: int, e: int, v: Word)
    requires
        jump_step(s, i, e).0 != JumpCondition::NoJump,
    ensures
        ({
            let (j, k) = jump_step(s, i, e);
            &&& 3 <= k <= s.len()
            &&& s[k - 3] == 'J'
            &&& jump_holds(j, v) == jump_name_holds(s.subrange(k - 3, k), v)
        }),
{
    reveal_strlit("JEQ");
    reveal_strlit("JGE");
    reveal_strlit("JGT");
    reveal_strlit("JLE");
    reveal_strlit("JLT");
    reveal_strlit("JMP");
    reveal_strlit("JNE");
    let (j, k) = jump_step(s, i, e);
    let t = s.subrange(k - 3, k);
    assert(t[0] == s[k - 3]);
    assert(t[1] == s[k - 2]);
    assert(t[2] == s[k - 1]);
}

/// The register symbols of the assembler: `R0` to `R15` name RAM words 0 to 15, and `SP`,
/// `LCL`, `ARG`, `THIS` and `THAT` name the same words as `R0` to `R4`.
#[verifier::spinoff_prover]
#[verifier::rlimit(60)]
pub proof fn lemma_register_symbols(n: nat)
    requires
        n < 16,
    ensures
        predefined_symbols().dom().contains("R"@ + nat_digits(n)),
        predefined_symbols()["R"@ + nat_digits(n)] == n,
        predefined_symbols()["SP"@] == 0,
        predefined_symbols()["LCL"@] == 1,
        predefined_symbols()["ARG"@] == 2,
        predefined_symbols()["THIS"@] == 3,
        predefined_symbols()["THAT"@] == 4,
{
    reveal_strlit("R0");
    reveal_strlit("R1");
    reveal_strlit("R2");
    reveal_strlit("R3");
    reveal_strlit("R4");
    reveal_strlit("R5");
    reveal_strlit("R6");
    reveal_strlit("R7");
    reveal_strlit("R8");
    reveal_strlit("R9");
    reveal_strlit("R10");
    reveal_strlit("R11");
    reveal_strlit("R12");
    reveal_strlit("R13");
    reveal_strlit("R14");
    reveal_strlit("R15");
    reveal_strlit("SP");
    reveal_strlit("LCL");
    reveal_strlit("ARG");
    reveal_strlit("THIS");
    reveal_strlit("THAT");
    reveal_strlit("SCREEN");
    reveal_strlit("R");
    if n == 0 {
        assert("R"@ + nat_digits(n) =~= "R0"@);
        lemma_text_differs("R0"@, "R1"@, 1);
        lemma_text_differs("R0"@, "R2"@, 1);
        lemma_text_differs("R0"@, "R3"@, 1);
        lemma_text_differs("R0"@, "R4"@, 1);
        lemma_text_differs("R0"@, "R5"@, 1);
        lemma_text_differs("R0"@, "R6"@, 1);
        lemma_text_differs("R0"@, "R7"@, 1);
        lemma_text_differs("R0"@, "R8"@, 1);
        lemma_text_differs("R0"@, "R9"@, 1);
        lemma_text_differs("R0"@, "R10"@, 0);
        lemma_text_differs("R0"@, "R11"@, 0);
        lemma_text_differs("R0"@, "R12"@, 0);
        lemma_text_differs("R0"@, "R13"@, 0);
        lemma_text_differs("R0"@, "R14"@, 0);
        lemma_text_differs("R0"@, "R15"@, 0);
        lemma_text_differs("R0"@, "SP"@, 0);
        lemma_text_differs("R0"@, "LCL"@, 0);
        lemma_text_differs("R0"@, "ARG"@, 0);
        lemma_text_differs("R0"@, "THIS"@, 0);
        lemma_text_differs("R0"@, "THAT"@, 0);
        lemma_text_differs("R0"@, "SCREEN"@, 0);
    } else if n == 1 {
        assert("R"@ + nat_digits(n) =~= "R1"@);
        lemma_text_differs("R1"@, "R2"@, 1);
        lemma_text_differs("R1"@, "R3"@, 1);
        lemma_text_differs("R1"@, "R4"@, 1);
        lemma_text_differs("R1"@, "R5"@, 1);
        lemma_text_differs("R1"@, "R6"@, 1);
        lemma_text_differs("R1"@, "R7"@, 1);
        lemma_text_differs("R1"@, "R8"@, 1);
        lemma_text_differs("R1"@, "R9"@, 1);
        lemma_text_differs("R1"@, "R10"@, 0);
        lemma_text_differs("R1"@, "R11"@, 0);
        lemma_text_differs("R1"@, "R12"@, 0);
        lemma_text_differs("R1"@, "R13"@, 0);
        lemma_text_differs("R1"@, "R14"@, 0);
        lemma_text_differs("R1"@, "R15"@, 0);
        lemma_text_differs("R1"@, "SP"@, 0);
        lemma_text_differs("R1"@, "LCL"@, 0);
        lemma_text_differs("R1"@, "ARG"@, 0);
        lemma_text_differs("R1"@, "THIS"@, 0);
        lemma_text_differs("R1"@, "THAT"@, 0);
        lemma_text_differs("R1"@, "SCREEN"@, 0);
    } else if n == 2 {
        assert("R"@ + nat_digits(n) =~= "R2"@);
        lemma_text_differs("R2"@, "R3"@, 1);
        lemma_text_differs("R2"@, "R4"@, 1);
        lemma_text_differs("R2"@, "R5"@, 1);
        lemma_text_differs("R2"@, "R6"@, 1);
        lemma_text_differs("R2"@, "R7"@, 1);
        lemma_text_differs("R2"@, "R8"@, 1);
        lemma_text_differs("R2"@, "R9"@, 1);
        lemma_text_differs("R2"@, "R10"@, 0);
        lemma_text_differs("R2"@, "R11"@, 0);
        lemma_text_differs("R2"@, "R12"@, 0);
        lemma_text_differs("R2"@, "R13"@, 0);
        lemma_text_differs("R2"@, "R14"@, 0);
        lemma_text_differs("R2"@, "R15"@, 0);
        lemma_text_differs("R2"@, "SP"@, 0);
        lemma_text_differs("R2"@, "LCL"@, 0);
        lemma_text_differs("R2"@, "ARG"@, 0);
        lemma_text_differs("R2"@, "THIS"@, 0);
        lemma_text_differs("R2"@, "THAT"@, 0);
        lemma_text_differs("R2"@, "SCREEN"@, 0);
    } else if n == 3 {
        assert("R"@ + nat_digits(n) =~= "R3"@);
        lemma_text_differs("R3"@, "R4"@, 1);
        lemma_text_differs("R3"@, "R5"@, 1);
        lemma_text_differs("R3"@, "R6"@, 1);
        lemma_text_differs("R3"@, "R7"@, 1);
        lemma_text_differs("R3"@, "R8"@, 1);
        lemma_text_differs("R3"@, "R9"@, 1);
        lemma_text_differs("R3"@, "R10"@, 0);
        lemma_text_differs("R3"@, "R11"@, 0);
        lemma_text_differs("R3"@, "R12"@, 0);
        lemma_text_differs("R3"@, "R13"@, 0);
        lemma_text_differs("R3"@, "R14"@, 0);
        lemma_text_differs("R3"@, "R15"@, 0);
        lemma_text_differs("R3"@, "SP"@, 0);
        lemma_text_differs("R3"@, "LCL"@, 0);
        lemma_text_differs("R3"@, "ARG"@, 0);
        lemma_text_differs("R3"@, "THIS"@, 0);
        lemma_text_differs("R3"@, "THAT"@, 0);
        lemma_text_differs("R3"@, "SCREEN"@, 0);
    } else if n == 4 {
        assert("R"@ + nat_digits(n) =~= "R4"@);
        lemma_text_differs("R4"@, "R5"@, 1);
        lemma_text_differs("R4"@, "R6"@, 1);
        lemma_text_differs("R4"@, "R7"@, 1);
        lemma_text_differs("R4"@, "R8"@, 1);
        lemma_text_differs("R4"@, "R9"@, 1);
        lemma_text_differs("R4"@, "R10"@, 0);
        lemma_text_differs("R4"@, "R11"@, 0);
        lemma_text_differs("R4"@, "R12"@, 0);
        lemma_text_differs("R4"@, "R13"@, 0);
        lemma_text_differs("R4"@, "R14"@, 0);
        lemma_text_differs("R4"@, "R15"@, 0);
        lemma_text_differs("R4"@, "SP"@, 0);
        lemma_text_differs("R4"@, "LCL"@, 0);
        lemma_text_differs("R4"@, "ARG"@, 0);
        lemma_text_differs("R4"@, "THIS"@, 0);
        lemma_text_differs("R4"@, "THAT"@, 0);
        lemma_text_differs("R4"@, "SCREEN"@, 0);
    } else if n == 5 {
        assert("R"@ + nat_digits(n) =~= "R5"@);
        lemma_text_differs("R5"@, "R6"@, 1);
        lemma_text_differs("R5"@, "R7"@, 1);
        lemma_text_differs("R5"@, "R8"@, 1);
        lemma_text_differs("R5"@, "R9"@, 1);
        lemma_text_differs("R5"@, "R10"@, 0);
        lemma_text_differs("R5"@, "R11"@, 0);
        lemma_text_differs("R5"@, "R12"@, 0);
        lemma_text_differs("R5"@, "R13"@, 0);
        lemma_text_differs("R5"@, "R14"@, 0);
        lemma_text_differs("R5"@, "R15"@, 0);
        lemma_text_differs("R5"@, "SP"@, 0);
        lemma_text_differs("R5"@, "LCL"@, 0);
        lemma_text_differs("R5"@, "ARG"@, 0);
        lemma_text_differs("R5"@, "THIS"@, 0);
        lemma_text_differs("R5"@, "THAT"@, 0);
        lemma_text_differs("R5"@, "SCREEN"@, 0);
    } else if n == 6 {
        assert("R"@ + nat_digits(n) =~= "R6"@);
        lemma_text_differs("R6"@, "R7"@, 1);
        lemma_text_differs("R6"@, "R8"@, 1);
        lemma_text_differs("R6"@, "R9"@, 1);
        lemma_text_differs("R6"@, "R10"@, 0);
        lemma_text_differs("R6"@, "R11"@, 0);
        lemma_text_differs("R6"@, "R12"@, 0);
        lemma_text_differs("R6"@, "R13"@, 0);
        lemma_text_differs("R6"@, "R14"@, 0);
        lemma_text_differs("R6"@, "R15"@, 0);
        lemma_text_differs("R6"@, "SP"@, 0);
        lemma_text_differs("R6"@, "LCL"@, 0);
        lemma_text_differs("R6"@, "ARG"@, 0);
        lemma_text_differs("R6"@, "THIS"@, 0);
        lemma_text_differs("R6"@, "THAT"@, 0);
        lemma_text_differs("R6"@, "SCREEN"@, 0);
    } else if n == 7 {
        assert("R"@ + nat_digits(n) =~= "R7"@);
        lemma_text_differs("R7"@, "R8"@, 1);
        lemma_text_differs("R7"@, "R9"@, 1);
        lemma_text_differs("R7"@, "R10"@, 0);
        lemma_text_differs("R7"@, "R11"@, 0);
        lemma_text_differs("R7"@, "R12"@, 0);
        lemma_text_differs("R7"@, "R13"@, 0);
        lemma_text_differs("R7"@, "R14"@, 0);
        lemma_text_differs("R7"@, "R15"@, 0);
        lemma_text_differs("R7"@, "SP"@, 0);
        lemma_text_differs("R7"@, "LCL"@, 0);
        lemma_text_differs("R7"@, "ARG"@, 0);
        lemma_text_differs("R7"@, "THIS"@, 0);
        lemma_text_differs("R7"@, "THAT"@, 0);
        lemma_text_differs("R7"@, "SCREEN"@, 0);
    } else if n == 8 {
        assert("R"@ + nat_digits(n) =~= "R8"@);
        lemma_text_differs("R8"@, "R9"@, 1);
        lemma_text_differs("R8"@, "R10"@, 0);
        lemma_text_differs("R8"@, "R11"@, 0);
        lemma_text_differs("R8"@, "R12"@, 0);
        lemma_text_differs("R8"@, "R13"@, 0);
        lemma_text_differs("R8"@, "R14"@, 0);
        lemma_text_differs("R8"@, "R15"@, 0);
        lemma_text_differs("R8"@, "SP"@, 0);
        lemma_text_differs("R8"@, "LCL"@, 0);
        lemma_text_differs("R8"@, "ARG"@, 0);
        lemma_text_differs("R8"@, "THIS"@, 0);
        lemma_text_differs("R8"@, "THAT"@, 0);
        lemma_text_differs("R8"@, "SCREEN"@, 0);
    } else if n == 9 {
        assert("R"@ + nat_digits(n) =~= "R9"@);
        lemma_text_differs("R9"@, "R10"@, 0);
        lemma_text_differs("R9"@, "R11"@, 0);
        lemma_text_differs("R9"@, "R12"@, 0);
        lemma_text_differs("R9"@, "R13"@, 0);
        lemma_text_differs("R9"@, "R14"@, 0);
        lemma_text_differs("R9"@, "R15"@, 0);
        lemma_text_differs("R9"@, "SP"@, 0);
        lemma_text_differs("R9"@, "LCL"@, 0);
        lemma_text_differs("R9"@, "ARG"@, 0);
        lemma_text_differs("R9"@, "THIS"@, 0);
        lemma_text_differs("R9"@, "THAT"@, 0);
        lemma_text_differs("R9"@, "SCREEN"@, 0);
    } else if n == 10 {
        assert(nat_digits(n) == nat_digits(1).push(digit_char(0)));
        assert(nat_digits(1) == seq!['1']);
        assert("R"@ + nat_digits(n) =~= "R10"@);
        lemma_text_differs("R10"@, "R11"@, 2);
        lemma_text_differs("R10"@, "R12"@, 2);
        lemma_text_differs("R10"@, "R13"@, 2);
        lemma_text_differs("R10"@, "R14"@, 2);
        lemma_text_differs("R10"@, "R15"@, 2);
        lemma_text_differs("R10"@, "SP"@, 0);
        lemma_text_differs("R10"@, "LCL"@, 0);
        lemma_text_differs("R10"@, "ARG"@, 0);
        lemma_text_differs("R10"@, "THIS"@, 0);
        lemma_text_differs("R10"@, "THAT"@, 0);
        lemma_text_differs("R10"@, "SCREEN"@, 0);
    } else if n == 11 {
        assert(nat_digits(n) == nat_digits(1).push(digit_char(1)));
        assert(nat_digits(1) == seq!['1']);
        assert("R"@ + nat_digits(n) =~= "R11"@);
        lemma_text_differs("R11"@, "R12"@, 2);
        lemma_text_differs("R11"@, "R13"@, 2);
        lemma_text_differs("R11"@, "R14"@, 2);
        lemma_text_differs("R11"@, "R15"@, 2);
        lemma_text_differs("R11"@, "SP"@, 0);
        lemma_text_differs("R11"@, "LCL"@, 0);
        lemma_text_differs("R11"@, "ARG"@, 0);
        lemma_text_differs("R11"@, "THIS"@, 0);
        lemma_text_differs("R11"@, "THAT"@, 0);
        lemma_text_differs("R11"@, "SCREEN"@, 0);
    } else if n == 12 {
        assert(nat_digits(n) == nat_digits(1).push(digit_char(2)));
        assert(nat_digits(1) == seq!['1']);
        assert("R"@ + nat_digits(n) =~= "R12"@);
        lemma_text_differs("R12"@, "R13"@, 2);
        lemma_text_differs("R12"@, "R14"@, 2);
        lemma_text_differs("R12"@, "R15"@, 2);
        lemma_text_differs("R12"@, "SP"@, 0);
        lemma_text_differs("R12"@, "LCL"@, 0);
        lemma_text_differs("R12"@, "ARG"@, 0);
        lemma_text_differs("R12"@, "THIS"@, 0);
        lemma_text_differs("R12"@, "THAT"@, 0);
        lemma_text_differs("R12"@, "SCREEN"@, 0);
    } else if n == 13 {
        assert(nat_digits(n) == nat_digits(1).push(digit_char(3)));
        assert(nat_digits(1) == seq!['1']);
        assert("R"@ + nat_digits(n) =~= "R13"@);
        lemma_text_differs("R13"@, "R14"@, 2);
        lemma_text_differs("R13"@, "R15"@, 2);
        lemma_text_differs("R13"@, "SP"@, 0);
        lemma_text_differs("R13"@, "LCL"@, 0);
        lemma_text_differs("R13"@, "ARG"@, 0);
        lemma_text_differs("R13"@, "THIS"@, 0);
        lemma_text_differs("R13"@, "THAT"@, 0);
        lemma_text_differs("R13"@, "SCREEN"@, 0);
    } else if n == 14 {
        assert(nat_digits(n) == nat_digits(1).push(digit_char(4)));
        assert(nat_digits(1) == seq!['1']);
        assert("R"@ + nat_digits(n) =~= "R14"@);
        lemma_text_differs("R14"@, "R15"@, 2);
        lemma_text_differs("R14"@, "SP"@, 0);
        lemma_text_differs("R14"@, "LCL"@, 0);
        lemma_text_differs("R14"@, "ARG"@, 0);
        lemma_text_differs("R14"@, "THIS"@, 0);
        lemma_text_differs("R14"@, "THAT"@, 0);
        lemma_text_differs("R14"@, "SCREEN"@, 0);
    } else if n == 15 {
        assert(nat_digits(n) == nat_digits(1).push(digit_char(5)));
        assert(nat_digits(1) == seq!['1']);
        assert("R"@ + nat_digits(n) =~= "R15"@);
        lemma_text_differs("R15"@, "SP"@, 0);
        lemma_text_differs("R15"@, "LCL"@, 0);
        lemma_text_differs("R15"@, "ARG"@, 0);
        lemma_text_differs("R15"@, "THIS"@, 0);
        lemma_text_differs("R15"@, "THAT"@, 0);
        lemma_text_differs("R15"@, "SCREEN"@, 0);
    }
    lemma_text_differs("SP"@, "LCL"@, 0);
    lemma_text_differs("SP"@, "ARG"@, 0);
    lemma_text_differs("SP"@, "THIS"@, 0);
    lemma_text_differs("SP"@, "THAT"@, 0);
    lemma_text_differs("SP"@, "SCREEN"@, 0);
    lemma_text_differs("LCL"@, "ARG"@, 0);
    lemma_text_differs("LCL"@, "THIS"@, 0);
    lemma_text_differs("LCL"@, "THAT"@, 0);
    lemma_text_differs("LCL"@, "SCREEN"@, 0);
    lemma_text_differs("ARG"@, "THIS"@, 0);
    lemma_text_differs("ARG"@, "THAT"@, 0);
    lemma_text_differs("ARG"@, "SCREEN"@, 0);
    lemma_text_differs("THIS"@, "THAT"@, 2);
    lemma_text_differs("THIS"@, "SCREEN"@, 0);
    lemma_text_differs("THAT"@, "SCREEN"@, 0);
}

} // verus!

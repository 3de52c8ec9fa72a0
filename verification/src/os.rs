use vstd::prelude::*;

use crate::characters::{character_bitmaps, glyph};
use crate::hardware::{pixel_address, pixel_addressable, pixel_mask, Word, MEM_SIZE, RAM};
use crate::scan::chars_eq_str;
use crate::text::str_chars;
use crate::maps::{word_entries, WordMap};
use crate::vm::{push_ram, push_value, PushSegment, RunSpec, RunState};

verus! {

/// The heap: free holes by start and by end (each with its size), and the allocated
/// blocks by start (with their size).
#[derive(Clone)]
pub struct Memory {
    hole_starts: WordMap,
    hole_ends: WordMap,
    allocs: WordMap,
}

#[derive(Clone)]
pub struct Screen {
    color: bool,
}

#[derive(Clone)]
pub struct Output {
    row: Word,
    col: Word,
}

/// The state of the operating system that the VM emulates.
#[derive(Clone)]
pub struct OS {
    memory: Memory,
    screen: Screen,
    output: Output,
}

/// The heap as maps from addresses to sizes.
pub struct Heap {
    pub hole_starts: Map<Word, Word>,
    pub hole_ends: Map<Word, Word>,
    pub allocs: Map<Word, Word>,
}

/// The operating system's state as a mathematical value.
pub struct OsState {
    pub heap: Heap,
    pub color: bool,
    pub row: Word,
    pub col: Word,
}

impl Memory {
    pub closed spec fn heap(&self) -> Heap {
        Heap {
            hole_starts: word_entries(self.hole_starts),
            hole_ends: word_entries(self.hole_ends),
            allocs: word_entries(self.allocs),
        }
    }
}

impl View for OS {
    type V = OsState;

    closed spec fn view(&self) -> OsState {
        OsState {
            heap: self.memory.heap(),
            color: self.screen.color,
            row: self.output.row,
            col: self.output.col,
        }
    }
}

/// The cursor stays on the screen: rows 0 to 22, columns 0 to 63.
pub open spec fn os_wf(os: OsState) -> bool {
    0 <= os.row <= 22 && 0 <= os.col <= 63
}

/// The operating system at start: one hole from 0x0800 up to the screen, color black,
/// cursor at the top left.
pub open spec fn os_default() -> OsState {
    OsState {
        heap: Heap {
            hole_starts: Map::<Word, Word>::empty().insert(0x0800, 0x3800),
            hole_ends: Map::<Word, Word>::empty().insert(0x4000, 0x3800),
            allocs: Map::<Word, Word>::empty(),
        },
        color: true,
        row: 0,
        col: 0,
    }
}

impl Default for OS {
    fn default() -> (r: Self)
        ensures
            r@ == os_default(),
    {
        let mut hole_starts = WordMap::new();
        hole_starts.insert(0x0800, 0x3800);
        let mut hole_ends = WordMap::new();
        hole_ends.insert(0x4000, 0x3800);
        let allocs = WordMap::new();
        let r = OS {
            memory: Memory { hole_starts, hole_ends, allocs },
            screen: Screen { color: true },
            output: Output { row: 0, col: 0 },
        };
        assert(r@.heap.hole_starts =~= os_default().heap.hole_starts);
        assert(r@.heap.hole_ends =~= os_default().heap.hole_ends);
        assert(r@.heap.allocs =~= os_default().heap.allocs);
        r
    }
}

/// Whether `v` is a word.
pub open spec fn in_word(v: int) -> bool {
    i16::MIN <= v <= i16::MAX
}

/// The word at address `a`, if `a` is an address.
pub open spec fn read_at(ram: Seq<Word>, a: int) -> Option<Word> {
    if 0 <= a <= i16::MAX { Some(ram[a]) } else { None }
}

/// Argument `k` of the current call.
pub open spec fn arg(ram: Seq<Word>, k: Word) -> Option<Word> {
    push_value(ram, 0, PushSegment::Argument, k)
}

// ---------------------------------------------------------------- the heap

/// Hole `h` can hold `size` words.
pub open spec fn fits(holes: Map<Word, Word>, size: Word, h: Word) -> bool {
    holes.dom().contains(h) && holes[h] >= size
}

/// Hole `h` can hold `size` words and starts lowest among such holes.
pub open spec fn is_lowest_fit(holes: Map<Word, Word>, size: Word, h: Word) -> bool {
    fits(holes, size, h) && forall|g: Word| #[trigger] fits(holes, size, g) ==> h <= g
}

/// The hole that an allocation of `size` words takes: the lowest that can hold them.
pub open spec fn lowest_fit(holes: Map<Word, Word>, size: Word) -> Option<Word> {
    if exists|h: Word| fits(holes, size, h) {
        Some(choose|h: Word| is_lowest_fit(holes, size, h))
    } else {
        None
    }
}

/// The heap after `size` words are taken from the start of hole `h`.
pub open spec fn alloc_at(heap: Heap, size: Word, h: Word) -> Heap {
    let hs = heap.hole_starts[h];
    let end = (h + hs) as Word;
    let starts1 = heap.hole_starts.remove(h);
    let ends1 = heap.hole_ends.remove(end);
    let allocs1 = heap.allocs.insert(h, size);
    if hs != size {
        Heap {
            hole_starts: starts1.insert((h + size) as Word, (hs - size) as Word),
            hole_ends: ends1.insert(end, (hs - size) as Word),
            allocs: allocs1,
        }
    } else {
        Heap { hole_starts: starts1, hole_ends: ends1, allocs: allocs1 }
    }
}

/// Allocating `size` words: `Some(None)` where no hole can hold them, `Some(Some((heap,
/// address)))` where it succeeds, `None` where the address arithmetic leaves the words.
pub open spec fn alloc_heap(heap: Heap, size: Word) -> Option<Option<(Heap, Word)>> {
    match lowest_fit(heap.hole_starts, size) {
        None => Some(None),
        Some(h) => {
            let hs = heap.hole_starts[h];
            if !in_word(h + hs) || (hs != size && (!in_word(h + size) || !in_word(hs - size))) {
                None
            } else {
                Some(Some((alloc_at(heap, size, h), h)))
            }
        },
    }
}

/// Freeing the block at `address`, merged with the holes right before and after it:
/// `Some(None)` where no block starts there, `None` where the arithmetic leaves the words.
pub open spec fn dealloc_heap(heap: Heap, address: Word) -> Option<Option<Heap>> {
    if !heap.allocs.dom().contains(address) {
        Some(None)
    } else {
        let size = heap.allocs[address];
        let allocs1 = heap.allocs.remove(address);
        let has_prev = heap.hole_ends.dom().contains(address);
        let prev = heap.hole_ends[address];
        if has_prev && (!in_word(address - prev) || !in_word(size + prev)) {
            None
        } else {
            let start: int = if has_prev { address - prev } else { address as int };
            let size1: int = if has_prev { size + prev } else { size as int };
            let ends1 = if has_prev { heap.hole_ends.remove(address) } else { heap.hole_ends };
            let starts1 = if has_prev {
                heap.hole_starts.remove(start as Word)
            } else {
                heap.hole_starts
            };
            if !in_word(address + size) {
                None
            } else {
                let next_key = (address + size) as Word;
                let has_next = starts1.dom().contains(next_key);
                let size2: int = if has_next { size1 + starts1[next_key] } else { size1 };
                let starts2 = if has_next { starts1.remove(next_key) } else { starts1 };
                if !in_word(size2) || !in_word(start + size2) {
                    None
                } else {
                    let end = (start + size2) as Word;
                    let ends2 = if has_next { ends1.remove(end) } else { ends1 };
                    Some(
                        Some(
                            Heap {
                                hole_starts: starts2.insert(start as Word, size2 as Word),
                                hole_ends: ends2.insert(end, size2 as Word),
                                allocs: allocs1,
                            },
                        ),
                    )
                }
            }
        }
    }
}

proof fn lemma_lowest_fit_unique(holes: Map<Word, Word>, size: Word, h: Word)
    requires
        is_lowest_fit(holes, size, h),
    ensures
        lowest_fit(holes, size) == Some(h),
{
    let c = choose|g: Word| is_lowest_fit(holes, size, g);
    assert(is_lowest_fit(holes, size, c));
    assert(fits(holes, size, c) && fits(holes, size, h));
}

impl Memory {
    /// Takes `size` words from the lowest hole that can hold them.
    fn allocate(&mut self, size: Word) -> (r: Option<Word>)
        requires
            alloc_heap(old(self).heap(), size) is Some,
        ensures
            match alloc_heap(old(self).heap(), size).unwrap() {
                None => r is None && final(self).heap() == old(self).heap(),
                Some((heap, a)) => r == Some(a) && final(self).heap() == heap,
            },
    {
        let ghost holes = word_entries(self.hole_starts);
        let v = self.hole_starts.entries();
        let mut best: Option<(Word, Word)> = None;
        let mut i: usize = 0;
        while i < v.len()
            invariant
                i <= v@.len(),
                holes == word_entries(self.hole_starts),
                forall|j: int|
                    0 <= j < v@.len() ==> holes.dom().contains(#[trigger] v@[j].0) && holes[v@[j].0]
                        == v@[j].1,
                best is None ==> forall|j: int| 0 <= j < i ==> #[trigger] v@[j].1 < size,
                best matches Some(b) ==> fits(holes, size, b.0) && holes[b.0] == b.1 && forall|
                    j: int,
                | 0 <= j < i && #[trigger] v@[j].1 >= size ==> b.0 <= v@[j].0,
            decreases v@.len() - i,
        {
            let (start, hole_size) = v[i];
            if hole_size >= size {
                match best {
                    None => {
                        best = Some((start, hole_size));
                    },
                    Some((b, _)) => {
                        if start < b {
                            best = Some((start, hole_size));
                        }
                    },
                }
            }
            i = i + 1;
        }
        match best {
            None => {
                assert forall|g: Word| !fits(holes, size, g) by {
                    if fits(holes, size, g) {
                        let j = choose|j: int| 0 <= j < v@.len() && #[trigger] v@[j].0 == g;
                        assert(v@[j].1 < size);
                    }
                }
                None
            },
            Some((hole_start, hole_size)) => {
                assert forall|g: Word| #[trigger] fits(holes, size, g) implies hole_start <= g by {
                    let j = choose|j: int| 0 <= j < v@.len() && #[trigger] v@[j].0 == g;
                    assert(v@[j].1 >= size);
                }
                proof {
                    lemma_lowest_fit_unique(holes, size, hole_start);
                }
                let end = hole_start + hole_size;
                self.hole_starts.remove(hole_start);
                self.hole_ends.remove(end);
                self.allocs.insert(hole_start, size);
                if hole_size != size {
                    self.hole_starts.insert(hole_start + size, hole_size - size);
                    self.hole_ends.insert(end, hole_size - size);
                }
                Some(hole_start)
            },
        }
    }

    /// Frees the block at `address`, merging it with the holes around it; false where no
    /// block starts there.
    fn free(&mut self, address: Word) -> (r: bool)
        requires
            dealloc_heap(old(self).heap(), address) is Some,
        ensures
            match dealloc_heap(old(self).heap(), address).unwrap() {
                None => !r && final(self).heap() == old(self).heap(),
                Some(heap) => r && final(self).heap() == heap,
            },
    {
        let ghost h0 = self.heap();
        let size = match self.allocs.remove(address) {
            None => {
                assert(self.heap().allocs =~= h0.allocs);
                return false;
            },
            Some(size) => size,
        };
        let mut hole_start = address;
        let mut hole_size = size;
        if let Some(preceding_size) = self.hole_ends.remove(address) {
            hole_start = hole_start - preceding_size;
            hole_size = hole_size + preceding_size;
            self.hole_starts.remove(hole_start);
        }
        if let Some(following_size) = self.hole_starts.remove(address + size) {
            hole_size = hole_size + following_size;
            self.hole_ends.remove(hole_start + hole_size);
        }
        self.hole_starts.insert(hole_start, hole_size);
        self.hole_ends.insert(hole_start + hole_size, hole_size);
        proof {
            let target = dealloc_heap(h0, address).unwrap().unwrap();
            assert(self.heap().hole_starts =~= target.hole_starts);
            assert(self.heap().hole_ends =~= target.hole_ends);
            assert(self.heap().allocs =~= target.allocs);
        }
        true
    }
}

// ---------------------------------------------------------------- the functions

/// The functions of the operating system that the VM runs itself.
#[derive(Clone, Copy, Debug, PartialEq, Eq, Structural)]
pub enum OsFunction {
    Noop,
    MathMultiply,
    MathDivide,
    MathMin,
    MathMax,
    MathSqrt,
    MathAbs,
    MemoryAlloc,
    MemoryDealloc,
    KeyboardKeyPressed,
    ScreenClearScreen,
    ScreenSetColor,
    ScreenDrawPixel,
    ScreenDrawLine,
    ScreenDrawRectangle,
    ScreenDrawCircle,
    MemoryPeek,
    MemoryPoke,
    StringNew,
    StringLength,
    StringCharAt,
    StringSetCharAt,
    StringAppendChar,
    StringEraseLastChar,
    StringIntValue,
    StringSetInt,
    StringBackSpace,
    StringDoubleQuote,
    StringNewLine,
    OutputMoveCursor,
    OutputPrintChar,
    OutputPrintString,
    OutputPrintInt,
    OutputPrintln,
    OutputBackSpace,
    SysError,
}

/// The operating system function that a VM function name calls, if any.
pub open spec fn os_function(name: Seq<char>) -> Option<OsFunction> {
    if name == "Math.init"@ { Some(OsFunction::Noop) }
    else if name == "Math.multiply"@ { Some(OsFunction::MathMultiply) }
    else if name == "Math.divide"@ { Some(OsFunction::MathDivide) }
    else if name == "Math.min"@ { Some(OsFunction::MathMin) }
    else if name == "Math.max"@ { Some(OsFunction::MathMax) }
    else if name == "Math.sqrt"@ { Some(OsFunction::MathSqrt) }
    else if name == "Math.abs"@ { Some(OsFunction::MathAbs) }
    else if name == "Array.new"@ { Some(OsFunction::MemoryAlloc) }
    else if name == "Array.dispose"@ { Some(OsFunction::MemoryDealloc) }
    else if name == "Keyboard.keyPressed"@ { Some(OsFunction::KeyboardKeyPressed) }
    else if name == "Screen.init"@ { Some(OsFunction::Noop) }
    else if name == "Screen.clearScreen"@ { Some(OsFunction::ScreenClearScreen) }
    else if name == "Screen.setColor"@ { Some(OsFunction::ScreenSetColor) }
    else if name == "Screen.drawPixel"@ { Some(OsFunction::ScreenDrawPixel) }
    else if name == "Screen.drawLine"@ { Some(OsFunction::ScreenDrawLine) }
    else if name == "Screen.drawRectangle"@ { Some(OsFunction::ScreenDrawRectangle) }
    else if name == "Screen.drawCircle"@ { Some(OsFunction::ScreenDrawCircle) }
    else if name == "Memory.init"@ { Some(OsFunction::Noop) }
    else if name == "Memory.peek"@ { Some(OsFunction::MemoryPeek) }
    else if name == "Memory.poke"@ { Some(OsFunction::MemoryPoke) }
    else if name == "Memory.alloc"@ { Some(OsFunction::MemoryAlloc) }
    else if name == "Memory.deAlloc"@ { Some(OsFunction::MemoryDealloc) }
    else if name == "String.new"@ { Some(OsFunction::StringNew) }
    else if name == "String.dispose"@ { Some(OsFunction::MemoryDealloc) }
    else if name == "String.length"@ { Some(OsFunction::StringLength) }
    else if name == "String.charAt"@ { Some(OsFunction::StringCharAt) }
    else if name == "String.setCharAt"@ { Some(OsFunction::StringSetCharAt) }
    else if name == "String.appendChar"@ { Some(OsFunction::StringAppendChar) }
    else if name == "String.eraseLastChar"@ { Some(OsFunction::StringEraseLastChar) }
    else if name == "String.intValue"@ { Some(OsFunction::StringIntValue) }
    else if name == "String.setInt"@ { Some(OsFunction::StringSetInt) }
    else if name == "String.backSpace"@ { Some(OsFunction::StringBackSpace) }
    else if name == "String.doubleQuote"@ { Some(OsFunction::StringDoubleQuote) }
    else if name == "String.newLine"@ { Some(OsFunction::StringNewLine) }
    else if name == "Output.init"@ { Some(OsFunction::Noop) }
    else if name == "Output.moveCursor"@ { Some(OsFunction::OutputMoveCursor) }
    else if name == "Output.printChar"@ { Some(OsFunction::OutputPrintChar) }
    else if name == "Output.printString"@ { Some(OsFunction::OutputPrintString) }
    else if name == "Output.printInt"@ { Some(OsFunction::OutputPrintInt) }
    else if name == "Output.println"@ { Some(OsFunction::OutputPrintln) }
    else if name == "Output.backSpace"@ { Some(OsFunction::OutputBackSpace) }
    else if name == "Sys.error"@ { Some(OsFunction::SysError) }
    else { None }
}

/// The operating system function that a VM function name calls, if any.
pub fn os_function_of(name: &str) -> (r: Option<OsFunction>)
    ensures
        r == os_function(name@),
{
    let cs = str_chars(name);
    if chars_eq_str(&cs, "Math.init") { Some(OsFunction::Noop) }
    else if chars_eq_str(&cs, "Math.multiply") { Some(OsFunction::MathMultiply) }
    else if chars_eq_str(&cs, "Math.divide") { Some(OsFunction::MathDivide) }
    else if chars_eq_str(&cs, "Math.min") { Some(OsFunction::MathMin) }
    else if chars_eq_str(&cs, "Math.max") { Some(OsFunction::MathMax) }
    else if chars_eq_str(&cs, "Math.sqrt") { Some(OsFunction::MathSqrt) }
    else if chars_eq_str(&cs, "Math.abs") { Some(OsFunction::MathAbs) }
    else if chars_eq_str(&cs, "Array.new") { Some(OsFunction::MemoryAlloc) }
    else if chars_eq_str(&cs, "Array.dispose") { Some(OsFunction::MemoryDealloc) }
    else if chars_eq_str(&cs, "Keyboard.keyPressed") { Some(OsFunction::KeyboardKeyPressed) }
    else if chars_eq_str(&cs, "Screen.init") { Some(OsFunction::Noop) }
    else if chars_eq_str(&cs, "Screen.clearScreen") { Some(OsFunction::ScreenClearScreen) }
    else if chars_eq_str(&cs, "Screen.setColor") { Some(OsFunction::ScreenSetColor) }
    else if chars_eq_str(&cs, "Screen.drawPixel") { Some(OsFunction::ScreenDrawPixel) }
    else if chars_eq_str(&cs, "Screen.drawLine") { Some(OsFunction::ScreenDrawLine) }
    else if chars_eq_str(&cs, "Screen.drawRectangle") { Some(OsFunction::ScreenDrawRectangle) }
    else if chars_eq_str(&cs, "Screen.drawCircle") { Some(OsFunction::ScreenDrawCircle) }
    else if chars_eq_str(&cs, "Memory.init") { Some(OsFunction::Noop) }
    else if chars_eq_str(&cs, "Memory.peek") { Some(OsFunction::MemoryPeek) }
    else if chars_eq_str(&cs, "Memory.poke") { Some(OsFunction::MemoryPoke) }
    else if chars_eq_str(&cs, "Memory.alloc") { Some(OsFunction::MemoryAlloc) }
    else if chars_eq_str(&cs, "Memory.deAlloc") { Some(OsFunction::MemoryDealloc) }
    else if chars_eq_str(&cs, "String.new") { Some(OsFunction::StringNew) }
    else if chars_eq_str(&cs, "String.dispose") { Some(OsFunction::MemoryDealloc) }
    else if chars_eq_str(&cs, "String.length") { Some(OsFunction::StringLength) }
    else if chars_eq_str(&cs, "String.charAt") { Some(OsFunction::StringCharAt) }
    else if chars_eq_str(&cs, "String.setCharAt") { Some(OsFunction::StringSetCharAt) }
    else if chars_eq_str(&cs, "String.appendChar") { Some(OsFunction::StringAppendChar) }
    else if chars_eq_str(&cs, "String.eraseLastChar") { Some(OsFunction::StringEraseLastChar) }
    else if chars_eq_str(&cs, "String.intValue") { Some(OsFunction::StringIntValue) }
    else if chars_eq_str(&cs, "String.setInt") { Some(OsFunction::StringSetInt) }
    else if chars_eq_str(&cs, "String.backSpace") { Some(OsFunction::StringBackSpace) }
    else if chars_eq_str(&cs, "String.doubleQuote") { Some(OsFunction::StringDoubleQuote) }
    else if chars_eq_str(&cs, "String.newLine") { Some(OsFunction::StringNewLine) }
    else if chars_eq_str(&cs, "Output.init") { Some(OsFunction::Noop) }
    else if chars_eq_str(&cs, "Output.moveCursor") { Some(OsFunction::OutputMoveCursor) }
    else if chars_eq_str(&cs, "Output.printChar") { Some(OsFunction::OutputPrintChar) }
    else if chars_eq_str(&cs, "Output.printString") { Some(OsFunction::OutputPrintString) }
    else if chars_eq_str(&cs, "Output.printInt") { Some(OsFunction::OutputPrintInt) }
    else if chars_eq_str(&cs, "Output.println") { Some(OsFunction::OutputPrintln) }
    else if chars_eq_str(&cs, "Output.backSpace") { Some(OsFunction::OutputBackSpace) }
    else if chars_eq_str(&cs, "Sys.error") { Some(OsFunction::SysError) }
    else { None }
}

// ---------------------------------------------------------------- arithmetic

/// Rust's division of `x` by `y`, which rounds toward zero: where `x` is not negative
/// the quotient of Euclidean division (which then rounds toward zero), else the negated
/// quotient of `-x`.
pub open spec fn trunc_div(x: int, y: int) -> int {
    if x >= 0 { x / y } else { -((-x) / y) }
}

/// `r` is the integer square root of `x`.
pub open spec fn is_isqrt(x: int, r: int) -> bool {
    0 <= r && r * r <= x < (r + 1) * (r + 1)
}

/// The integer square root of `x`: the greatest `r` with `r * r <= x`.
pub open spec fn isqrt(x: int) -> int {
    choose|r: int| is_isqrt(x, r)
}

proof fn lemma_isqrt_unique(x: int, r: int)
    requires
        is_isqrt(x, r),
    ensures
        isqrt(x) == r,
{
    let c = isqrt(x);
    assert(is_isqrt(x, c));
    if c < r {
        assert((c + 1) * (c + 1) <= r * r) by (nonlinear_arith)
            requires 0 <= c, c + 1 <= r;
    } else if r < c {
        assert((r + 1) * (r + 1) <= c * c) by (nonlinear_arith)
            requires 0 <= r, r + 1 <= c;
    }
}

/// The integer square root of a word that is not negative.
fn isqrt_word(x: Word) -> (r: Word)
    requires
        x >= 0,
    ensures
        r == isqrt(x as int),
{
    let xx: i32 = x as i32;
    let mut r: i32 = 0;
    loop
        invariant
            0 <= r <= 181,
            r * r <= xx,
            xx == x,
            0 <= x <= 32767,
        ensures
            (r + 1) * (r + 1) > xx,
            0 <= r,
            r * r <= xx,
        decreases 181 - r,
    {
        let n = r + 1;
        assert(n * n <= 182 * 182) by (nonlinear_arith)
            requires 1 <= n <= 182;
        if n * n > xx {
            break;
        }
        assert(n <= 181) by (nonlinear_arith)
            requires n * n <= 32767, n >= 1;
        r = n;
    }
    proof {
        lemma_isqrt_unique(x as int, r as int);
    }
    r as Word
}

// ---------------------------------------------------------------- strings in RAM

/// The address of character `i` of the string at `a`, if the arithmetic stays in words
/// and lands on an address.
pub open spec fn char_address(a: int, i: int) -> Option<int> {
    if in_word(a + 2) && in_word(a + 2 + i) && 0 <= a + 2 + i { Some(a + 2 + i) } else { None }
}

/// Character `i` of the string at `a`, if `i` is below its length.
pub open spec fn string_char(ram: Seq<Word>, a: int, i: int) -> Option<Word> {
    match read_at(ram, a) {
        None => None,
        Some(len) => if len <= i {
            None
        } else {
            match char_address(a, i) {
                None => None,
                Some(p) => Some(ram[p]),
            }
        },
    }
}

/// The value of a word as a decimal digit (of its low byte), if it is one.
pub open spec fn digit_value(w: Word) -> Option<int> {
    let b = w as u8;
    if 48 <= b <= 57 { Some(b - 48) } else { None }
}

/// The decimal value of the words from `k` to `end`, read after `acc`; `None` where one
/// is not a digit or the value leaves `i64`.
pub open spec fn digit_fold(ram: Seq<Word>, k: int, end: int, acc: int) -> Option<int>
    decreases end - k,
{
    if k >= end {
        Some(acc)
    } else {
        match digit_value(ram[k]) {
            None => None,
            Some(d) => if acc * 10 + d > i64::MAX {
                None
            } else {
                digit_fold(ram, k + 1, end, acc * 10 + d)
            },
        }
    }
}

/// The value of the string at `a` as a decimal number with an optional leading '-'.
pub open spec fn string_int_value_spec(ram: Seq<Word>, a: int) -> Option<Word> {
    match read_at(ram, a) {
        None => None,
        Some(len) => if len <= 0 || !in_word(a + 2) || !in_word(a + 2 + len) {
            None
        } else {
            let neg = ram[a + 2] == 45;
            let start = if neg { a + 3 } else { a + 2 };
            if !in_word(start) || start > a + 2 + len {
                None
            } else {
                match digit_fold(ram, start, a + 2 + len, 0) {
                    None => None,
                    Some(v) => Some((if neg { -v } else { v }) as Word),
                }
            }
        },
    }
}

/// The character codes of the decimal digits of `n`, most significant first.
pub open spec fn nat_codes(n: nat) -> Seq<Word>
    decreases n,
{
    if n < 10 {
        seq![(48 + n) as Word]
    } else {
        nat_codes(n / 10).push((48 + n % 10) as Word)
    }
}

/// The character codes of the decimal text of `v`.
pub open spec fn int_codes(v: int) -> Seq<Word> {
    if v < 0 {
        seq![45 as Word] + nat_codes((-v) as nat)
    } else {
        nat_codes(v as nat)
    }
}

/// The RAM after `codes` from index `i` on are written as characters of the string at `a`.
pub open spec fn write_codes(ram: Seq<Word>, a: int, codes: Seq<Word>, i: int) -> Option<Seq<Word>>
    decreases codes.len() - i,
{
    if i >= codes.len() || i < 0 {
        Some(ram)
    } else {
        match char_address(a, i) {
            None => None,
            Some(p) => write_codes(ram.update(p, codes[i]), a, codes, i + 1),
        }
    }
}

/// The RAM after the string at `a` is set to the decimal text of `value`; `None` where
/// the text is longer than a capacity that is not negative.
pub open spec fn string_set_int_spec(ram: Seq<Word>, a: int, value: Word) -> Option<Seq<Word>> {
    let codes = int_codes(value as int);
    if !in_word(a + 1) {
        None
    } else {
        match read_at(ram, a + 1) {
            None => None,
            Some(cap) => if cap >= 0 && codes.len() > cap {
                None
            } else {
                match write_codes(ram, a, codes, 0) {
                    None => None,
                    Some(r) => if 0 <= a { Some(r.update(a, codes.len() as Word)) } else { None },
                }
            },
        }
    }
}

/// The RAM after `c` is appended to the string at `a`, if it has room.
pub open spec fn string_append_spec(ram: Seq<Word>, a: int, c: Word) -> Option<Seq<Word>> {
    match read_at(ram, a) {
        None => None,
        Some(len) => if !in_word(a + 1) || ram[a + 1] <= len {
            None
        } else {
            match char_address(a, len as int) {
                None => None,
                Some(p) => Some(ram.update(a, (len + 1) as Word).update(p, c)),
            }
        },
    }
}

// ---------------------------------------------------------------- text output

/// The RAM after rows `i` to 10 of glyph `bits` are drawn in the character cell at
/// (`row`, `col`).
pub open spec fn draw_glyph_rows(ram: Seq<Word>, row: Word, col: Word, bits: Seq<Word>, i: int) -> Seq<Word>
    decreases 11 - i,
{
    if i < 0 || i >= 11 {
        ram
    } else {
        let offset = ((col % 2) * 8) as Word;
        let row_bits = (bits[i] << offset) as Word;
        let mask = (255 as Word) << offset;
        let address = 16384 + 32 + (11 * row + i) * 32 + col / 2;
        draw_glyph_rows(ram.update(address, (ram[address] & !mask) | row_bits), row, col, bits, i + 1)
    }
}

/// The RAM after character `c` is drawn at the cursor.
pub open spec fn draw_char_spec(ram: Seq<Word>, os: OsState, c: Word) -> Seq<Word> {
    draw_glyph_rows(ram, os.row, os.col, glyph(c), 0)
}

/// Moving the cursor to (`row`, `col`) and clearing that cell; `None` off the text area
/// (the last column included).
pub open spec fn move_cursor_spec(ram: Seq<Word>, os: OsState, row: Word, col: Word) -> Option<(Seq<Word>, OsState)> {
    if !(0 <= row <= 22) || !(0 <= col < 63) {
        None
    } else {
        let os2 = OsState { row, col, ..os };
        Some((draw_char_spec(ram, os2, 32), os2))
    }
}

/// The cursor at the start of the next line (the first after the last).
pub open spec fn println_spec(os: OsState) -> OsState {
    OsState { row: ((os.row + 1) % 23) as Word, col: 0, ..os }
}

/// Moving the cursor one cell back and clearing it; nothing happens where that cell is
/// in the last column.
pub open spec fn backspace_spec(ram: Seq<Word>, os: OsState) -> (Seq<Word>, OsState) {
    let col = ((os.col + 63) % 64) as Word;
    let row = if col == 63 { ((os.row + 22) % 23) as Word } else { os.row };
    match move_cursor_spec(ram, os, row, col) {
        Some(p) => p,
        None => (ram, os),
    }
}

/// Printing character `c`: a new line (128), a backspace (129), or a glyph after which
/// the cursor advances.
pub open spec fn print_char_spec(ram: Seq<Word>, os: OsState, c: Word) -> (Seq<Word>, OsState) {
    if c == 128 {
        (ram, println_spec(os))
    } else if c == 129 {
        backspace_spec(ram, os)
    } else {
        let ram2 = draw_char_spec(ram, os, c);
        let col = ((os.col + 1) % 64) as Word;
        let row = if col == 0 { ((os.row + 1) % 23) as Word } else { os.row };
        (ram2, OsState { row, col, ..os })
    }
}

/// Printing characters `i` to `n - 1` of the string at `a`, each read when it is printed.
pub open spec fn print_string_from(ram: Seq<Word>, os: OsState, a: int, i: int, n: int) -> Option<(Seq<Word>, OsState)>
    decreases n - i,
{
    if i >= n {
        Some((ram, os))
    } else {
        match string_char(ram, a, i) {
            None => None,
            Some(c) => {
                let p = print_char_spec(ram, os, c);
                print_string_from(p.0, p.1, a, i + 1, n)
            },
        }
    }
}

/// Printing the characters `codes` from index `i` on.
pub open spec fn print_codes(ram: Seq<Word>, os: OsState, codes: Seq<Word>, i: int) -> (Seq<Word>, OsState)
    decreases codes.len() - i,
{
    if i < 0 || i >= codes.len() {
        (ram, os)
    } else {
        let p = print_char_spec(ram, os, codes[i]);
        print_codes(p.0, p.1, codes, i + 1)
    }
}


// ---------------------------------------------------------------- drawing

/// The absolute value of `v`.
pub open spec fn abs(v: int) -> int {
    if v < 0 { -v } else { v }
}

/// The sign of `v`.
pub open spec fn sign(v: int) -> int {
    if v > 0 { 1 } else if v < 0 { -1 } else { 0 }
}

/// `v` lies between `a` and `b`, both included.
pub open spec fn between(a: int, v: int, b: int) -> bool {
    (a <= v <= b) || (b <= v <= a)
}

/// The RAM after pixels `x` to `x_end` (both included) of row `y` are set to `color`;
/// `None` where one cannot be addressed.
pub open spec fn fill_span_spec(ram: Seq<Word>, color: bool, x: int, x_end: int, y: Word) -> Option<Seq<Word>>
    decreases x_end - x + 1,
{
    if x > x_end {
        Some(ram)
    } else if !in_word(x) || !pixel_addressable(x as Word, y) {
        None
    } else {
        fill_span_spec(pixel_set(ram, x as Word, y, color), color, x + 1, x_end, y)
    }
}

/// The RAM after rows `y` to `y2 - 1` are filled from `x1` to `x2`.
pub open spec fn rect_rows(ram: Seq<Word>, color: bool, x1: Word, x2: Word, y: int, y2: int) -> Option<Seq<Word>>
    decreases y2 - y,
{
    if y >= y2 || !in_word(y) {
        Some(ram)
    } else {
        match fill_span_spec(ram, color, x1 as int, x2 as int, y as Word) {
            None => None,
            Some(r) => rect_rows(r, color, x1, x2, y + 1, y2),
        }
    }
}

/// The RAM after rows `y` to `y_end` (both included) of the disc centred at (`cx`,
/// `cy`) whose radius squared is `r2` are filled: each row from `cx - d` to `cx + d`,
/// where `d` is the integer square root of the distance between `r2` and the squared
/// row offset.
pub open spec fn circle_rows(ram: Seq<Word>, color: bool, cx: Word, cy: Word, r2: Word, y: int, y_end: int) -> Option<Seq<Word>>
    decreases y_end - y + 1,
{
    if y > y_end || !in_word(y) {
        Some(ram)
    } else {
        let dy = y - cy;
        if !in_word(dy) || dy == i16::MIN || !in_word(abs(dy) * abs(dy)) || !in_word(r2 - abs(dy) * abs(dy)) {
            None
        } else {
            let xd = isqrt(abs(r2 - abs(dy) * abs(dy)));
            if !in_word(cx - xd) || !in_word(cx + xd) {
                None
            } else {
                match fill_span_spec(ram, color, cx - xd, cx + xd, y as Word) {
                    None => None,
                    Some(r) => circle_rows(r, color, cx, cy, r2, y + 1, y_end),
                }
            }
        }
    }
}

/// Where Bresenham's walk from (`x1`, `y1`) to (`x2`, `y2`) can be: between the two ends,
/// with the error term that the steps so far have built.
pub open spec fn line_inv(x: int, y: int, e: int, x1: int, y1: int, x2: int, y2: int) -> bool {
    let dx = abs(x2 - x1);
    let dy = -abs(y2 - y1);
    &&& between(x1, x, x2)
    &&& between(y1, y, y2)
    &&& e == dx + dy + abs(x - x1) * dy + abs(y - y1) * dx
}

/// One step of the walk: x moves where twice the error reaches `dy`, y where it stays
/// within `dx`.
pub open spec fn line_next(x: int, y: int, e: int, x1: int, y1: int, x2: int, y2: int) -> (int, int, int) {
    let dx = abs(x2 - x1);
    let dy = -abs(y2 - y1);
    let xs = 2 * e >= dy;
    let ys = 2 * e <= dx;
    let e_a = if xs { e + dy } else { e };
    (
        if xs { x + sign(x2 - x1) } else { x },
        if ys { y + sign(y2 - y1) } else { y },
        if ys { e_a + dx } else { e_a },
    )
}

/// One step of the walk keeps it between the ends, with its error term, and brings it
/// closer to the far end.
pub proof fn lemma_line_step(x: int, y: int, e: int, x1: int, y1: int, x2: int, y2: int)
    requires
        line_inv(x, y, e, x1, y1, x2, y2),
        !(x == x2 && y == y2),
        !(2 * e >= -abs(y2 - y1) && x2 == x1),
        !(2 * e <= abs(x2 - x1) && y2 == y1),
    ensures
        ({
            let n = line_next(x, y, e, x1, y1, x2, y2);
            &&& line_inv(n.0, n.1, n.2, x1, y1, x2, y2)
            &&& abs(x2 - n.0) + abs(y2 - n.1) < abs(x2 - x) + abs(y2 - y)
        }),
{
    let dx = abs(x2 - x1);
    let dy = -abs(y2 - y1);
    let px = abs(x - x1);
    let py = abs(y - y1);
    let xs = 2 * e >= dy;
    let ys = 2 * e <= dx;
    assert(e == dx + dy + px * dy + py * dx);
    if xs && x == x2 {
        assert(py <= -dy - 1);
        assert(e <= dy) by (nonlinear_arith)
            requires
                e == dx + dy + dx * dy + py * dx,
                py <= -dy - 1,
                dx >= 0,
        ;
    }
    if ys && y == y2 {
        assert(px <= dx - 1);
        assert(e >= dx) by (nonlinear_arith)
            requires
                e == dx + dy + px * dy + (-dy) * dx,
                px <= dx - 1,
                dy <= 0,
        ;
    }
    let e_a = if xs { e + dy } else { e };
    let px2 = if xs { px + 1 } else { px };
    let py2 = if ys { py + 1 } else { py };
    assert(e_a == dx + dy + px2 * dy + py * dx) by (nonlinear_arith)
        requires
            e == dx + dy + px * dy + py * dx,
            e_a == (if xs { e + dy } else { e }),
            px2 == (if xs { px + 1 } else { px }),
    ;
    let n = line_next(x, y, e, x1, y1, x2, y2);
    assert(n.2 == dx + dy + px2 * dy + py2 * dx) by (nonlinear_arith)
        requires
            e_a == dx + dy + px2 * dy + py * dx,
            n.2 == (if ys { e_a + dx } else { e_a }),
            py2 == (if ys { py + 1 } else { py }),
    ;
    assert(abs(n.0 - x1) == px2);
    assert(abs(n.1 - y1) == py2);
}

/// The RAM after the walk from (`x`, `y`) with error `e` on to (`x2`, `y2`) sets its
/// pixels; `None` where a pixel cannot be addressed or the arithmetic leaves the words.
pub open spec fn line_from(ram: Seq<Word>, color: bool, x: int, y: int, e: int, x1: int, y1: int, x2: int, y2: int) -> Option<Seq<Word>>
    decreases abs(x2 - x) + abs(y2 - y),
    when line_inv(x, y, e, x1, y1, x2, y2)
{
    let dx = abs(x2 - x1);
    let dy = -abs(y2 - y1);
    if !in_word(x) || !in_word(y) || !pixel_addressable(x as Word, y as Word) {
        None
    } else {
        let ram2 = pixel_set(ram, x as Word, y as Word, color);
        if x == x2 && y == y2 {
            Some(ram2)
        } else if !in_word(2 * e) {
            None
        } else if 2 * e >= dy && x2 == x1 {
            Some(ram2)
        } else if 2 * e >= dy && !in_word(e + dy) {
            None
        } else if 2 * e <= dx && y2 == y1 {
            Some(ram2)
        } else if 2 * e <= dx && !in_word((if 2 * e >= dy { e + dy } else { e }) + dx) {
            None
        } else {
            proof {
                lemma_line_step(x, y, e, x1, y1, x2, y2);
            }
            let n = line_next(x, y, e, x1, y1, x2, y2);
            line_from(ram2, color, n.0, n.1, n.2, x1, y1, x2, y2)
        }
    }
}

/// Drawing the line from (`x1`, `y1`) to (`x2`, `y2`).
pub open spec fn draw_line_spec(ram: Seq<Word>, color: bool, x1: Word, y1: Word, x2: Word, y2: Word) -> Option<Seq<Word>> {
    if !in_word(x2 - x1) || !in_word(y2 - y1) || x2 - x1 == i16::MIN || y2 - y1 == i16::MIN {
        None
    } else {
        line_from(ram, color, x1 as int, y1 as int, abs(x2 - x1) - abs(y2 - y1), x1 as int, y1 as int, x2 as int, y2 as int)
    }
}

/// Drawing the disc centred at (`cx`, `cy`) with radius `r`.
pub open spec fn draw_circle_spec(ram: Seq<Word>, color: bool, cx: Word, cy: Word, r: Word) -> Option<Seq<Word>> {
    if !in_word(r * r) || !in_word(cy - r) || !in_word(cy + r) {
        None
    } else {
        circle_rows(ram, color, cx, cy, (r * r) as Word, cy - r, cy + r)
    }
}

// ---------------------------------------------------------------- the effects

/// What an operating system function does to the RAM and the operating system, and the
/// value it returns; `None` where the function fails.
pub open spec fn os_effect(f: OsFunction, ram: Seq<Word>, os: OsState) -> Option<(Seq<Word>, OsState, Word)> {
    let a0 = arg(ram, 0);
    let a1 = arg(ram, 1);
    let a2 = arg(ram, 2);
    let a3 = arg(ram, 3);
    match f {
        OsFunction::Noop => Some((ram, os, 0)),
        OsFunction::MathMultiply => match (a0, a1) {
            (Some(x), Some(y)) => if in_word(x * y) { Some((ram, os, (x * y) as Word)) } else { None },
            _ => None,
        },
        OsFunction::MathDivide => match (a0, a1) {
            (Some(x), Some(y)) => if y == 0 || !in_word(trunc_div(x as int, y as int)) {
                None
            } else {
                Some((ram, os, trunc_div(x as int, y as int) as Word))
            },
            _ => None,
        },
        OsFunction::MathMin => match (a0, a1) {
            (Some(x), Some(y)) => Some((ram, os, if x <= y { x } else { y })),
            _ => None,
        },
        OsFunction::MathMax => match (a0, a1) {
            (Some(x), Some(y)) => Some((ram, os, if x >= y { x } else { y })),
            _ => None,
        },
        OsFunction::MathSqrt => match a0 {
            Some(x) => if x < 0 { None } else { Some((ram, os, isqrt(x as int) as Word)) },
            None => None,
        },
        OsFunction::MathAbs => match a0 {
            Some(x) => if x == i16::MIN { None } else { Some((ram, os, (if x < 0 { -x } else { x as int }) as Word)) },
            None => None,
        },
        OsFunction::MemoryAlloc => match a0 {
            Some(size) => match alloc_heap(os.heap, size) {
                Some(Some((heap, a))) => Some((ram, OsState { heap, ..os }, a)),
                _ => None,
            },
            None => None,
        },
        OsFunction::MemoryDealloc => match a0 {
            Some(a) => match dealloc_heap(os.heap, a) {
                Some(Some(heap)) => Some((ram, OsState { heap, ..os }, 0)),
                _ => None,
            },
            None => None,
        },
        OsFunction::KeyboardKeyPressed => Some((ram, os, ram[24576])),
        OsFunction::ScreenClearScreen => Some((clear_screen_spec(ram), os, 0)),
        OsFunction::ScreenSetColor => match a0 {
            Some(c) => Some((ram, OsState { color: c != 0, ..os }, 0)),
            None => None,
        },
        OsFunction::ScreenDrawPixel => match (a0, a1) {
            (Some(x), Some(y)) => if pixel_addressable(x, y) {
                Some((pixel_set(ram, x, y, os.color), os, 0))
            } else {
                None
            },
            _ => None,
        },
        OsFunction::ScreenDrawLine => match (a0, a1, a2, a3) {
            (Some(x1), Some(y1), Some(x2), Some(y2)) => match draw_line_spec(ram, os.color, x1, y1, x2, y2) {
                Some(r) => Some((r, os, 0)),
                None => None,
            },
            _ => None,
        },
        OsFunction::ScreenDrawRectangle => match (a0, a1, a2, a3) {
            (Some(x1), Some(y1), Some(x2), Some(y2)) => match rect_rows(ram, os.color, x1, x2, y1 as int, y2 as int) {
                Some(r) => Some((r, os, 0)),
                None => None,
            },
            _ => None,
        },
        OsFunction::ScreenDrawCircle => match (a0, a1, a2) {
            (Some(cx), Some(cy), Some(r)) => match draw_circle_spec(ram, os.color, cx, cy, r) {
                Some(r2) => Some((r2, os, 0)),
                None => None,
            },
            _ => None,
        },
        OsFunction::MemoryPeek => match a0 {
            Some(a) => match read_at(ram, a as int) {
                Some(v) => Some((ram, os, v)),
                None => None,
            },
            None => None,
        },
        OsFunction::MemoryPoke => match (a0, a1) {
            (Some(a), Some(v)) => if 0 <= a { Some((ram.update(a as int, v), os, 0)) } else { None },
            _ => None,
        },
        OsFunction::StringNew => match a0 {
            Some(cap) => if !in_word(2 + cap) {
                None
            } else {
                match alloc_heap(os.heap, (2 + cap) as Word) {
                    Some(Some((heap, a))) => if 0 <= a && in_word(a + 1) {
                        Some((ram.update(a as int, 0).update(a + 1, cap), OsState { heap, ..os }, a))
                    } else {
                        None
                    },
                    _ => None,
                }
            },
            None => None,
        },
        OsFunction::StringLength => match a0 {
            Some(a) => match read_at(ram, a as int) {
                Some(len) => Some((ram, os, len)),
                None => None,
            },
            None => None,
        },
        OsFunction::StringCharAt => match (a0, a1) {
            (Some(a), Some(i)) => match string_char(ram, a as int, i as int) {
                Some(c) => Some((ram, os, c)),
                None => None,
            },
            _ => None,
        },
        OsFunction::StringSetCharAt => match (a0, a1, a2) {
            (Some(a), Some(i), Some(v)) => match string_char(ram, a as int, i as int) {
                Some(_) => Some((ram.update(a + 2 + i, v), os, 0)),
                None => None,
            },
            _ => None,
        },
        OsFunction::StringAppendChar => match (a0, a1) {
            (Some(a), Some(c)) => match string_append_spec(ram, a as int, c) {
                Some(r) => Some((r, os, a)),
                None => None,
            },
            _ => None,
        },
        OsFunction::StringEraseLastChar => match a0 {
            Some(a) => match read_at(ram, a as int) {
                Some(len) => if len <= 0 { None } else { Some((ram.update(a as int, (len - 1) as Word), os, 0)) },
                None => None,
            },
            None => None,
        },
        OsFunction::StringIntValue => match a0 {
            Some(a) => match string_int_value_spec(ram, a as int) {
                Some(v) => Some((ram, os, v)),
                None => None,
            },
            None => None,
        },
        OsFunction::StringSetInt => match (a0, a1) {
            (Some(a), Some(v)) => match string_set_int_spec(ram, a as int, v) {
                Some(r) => Some((r, os, 0)),
                None => None,
            },
            _ => None,
        },
        OsFunction::StringBackSpace => Some((ram, os, 129)),
        OsFunction::StringDoubleQuote => Some((ram, os, 34)),
        OsFunction::StringNewLine => Some((ram, os, 128)),
        OsFunction::OutputMoveCursor => match (a0, a1) {
            (Some(row), Some(col)) => match move_cursor_spec(ram, os, row, col) {
                Some(p) => Some((p.0, p.1, 0)),
                None => None,
            },
            _ => None,
        },
        OsFunction::OutputPrintChar => match a0 {
            Some(c) => {
                let p = print_char_spec(ram, os, c);
                Some((p.0, p.1, 0))
            },
            None => None,
        },
        OsFunction::OutputPrintString => match a0 {
            Some(a) => match read_at(ram, a as int) {
                Some(n) => match print_string_from(ram, os, a as int, 0, n as int) {
                    Some(p) => Some((p.0, p.1, 0)),
                    None => None,
                },
                None => None,
            },
            None => None,
        },
        OsFunction::OutputPrintInt => match a0 {
            Some(v) => {
                let p = print_codes(ram, os, int_codes(v as int), 0);
                Some((p.0, p.1, 0))
            },
            None => None,
        },
        OsFunction::OutputPrintln => Some((ram, println_spec(os), 0)),
        OsFunction::OutputBackSpace => {
            let p = backspace_spec(ram, os);
            Some((p.0, p.1, 0))
        },
        OsFunction::SysError => None,
    }
}


/// Calling the VM function `name` as an operating system function: `Some(None)` where it
/// is none, `Some(Some((ram, os)))` where it runs and its return value is pushed, `None`
/// where it fails (`Sys.error` always does).
pub open spec fn os_call(name: Seq<char>, ram: Seq<Word>, os: OsState) -> Option<Option<(Seq<Word>, OsState)>> {
    match os_function(name) {
        None => Some(None),
        Some(f) => match os_effect(f, ram, os) {
            None => None,
            Some(e) => match push_ram(e.0, e.2) {
                None => None,
                Some(r) => Some(Some((r, e.1))),
            },
        },
    }
}

/// The RAM with the screen cleared.
pub open spec fn clear_screen_spec(ram: Seq<Word>) -> Seq<Word> {
    Seq::new(ram.len(), |i: int| if 16384 <= i < 24576 { 0 as Word } else { ram[i] })
}

/// The RAM with pixel (x, y) set to `value`.
pub open spec fn pixel_set(ram: Seq<Word>, x: Word, y: Word, value: bool) -> Seq<Word> {
    ram.update(
        pixel_address(x, y),
        if value {
            ram[pixel_address(x, y)] | pixel_mask(x)
        } else {
            ram[pixel_address(x, y)] & !pixel_mask(x)
        },
    )
}

/// The RAM and operating system a state has, and all else it holds, are well formed.
pub open spec fn run_wf(s: RunSpec) -> bool {
    s.ram.len() == MEM_SIZE && os_wf(s.os)
}

/// `before` and `after` agree on all but the RAM and the operating system.
pub open spec fn os_frame(before: RunSpec, after: RunSpec) -> bool {
    &&& after.current_file_index == before.current_file_index
    &&& after.current_command_index == before.current_command_index
    &&& after.call_stack == before.call_stack
    &&& after.breakpoints == before.breakpoints
    &&& after.func_stats == before.func_stats
}

/// Operating system function `f` can run in state `s` without failing.
pub open spec fn os_ready(f: OsFunction, s: RunSpec) -> bool {
    run_wf(s) && os_effect(f, s.ram, s.os) is Some
}

/// `after` is `before` once operating system function `f` has run and returned `r`.
pub open spec fn os_applied(f: OsFunction, before: RunSpec, after: RunSpec, r: Word) -> bool {
    &&& os_effect(f, before.ram, before.os) == Some((after.ram, after.os, r))
    &&& os_frame(before, after)
    &&& run_wf(after)
}

/// The character codes of the decimal text of `value`.
fn decimal_codes(value: Word) -> (v: Vec<Word>)
    ensures
        v@ == int_codes(value as int),
{
    let mut v: Vec<Word> = Vec::new();
    if value < 0 {
        v.push(45);
        let mut ds = digit_codes((-(value as i32)) as u32);
        v.append(&mut ds);
    } else {
        v = digit_codes(value as u32);
    }
    v
}

/// The character codes of the decimal digits of `n`.
fn digit_codes(n: u32) -> (v: Vec<Word>)
    ensures
        v@ == nat_codes(n as nat),
    decreases n,
{
    if n < 10 {
        let mut v = Vec::new();
        v.push((48 + n) as Word);
        v
    } else {
        let mut v = digit_codes(n / 10);
        v.push((48 + n % 10) as Word);
        v
    }
}

const CHAR_WIDTH: Word = 8;

const SUB_COLUMNS: Word = 2;

impl Output {
    /// Moves the cursor to the start of the next line.
    fn println(&mut self)
        requires
            0 <= old(self).row <= 22,
        ensures
            final(self).row == (old(self).row + 1) % 23,
            final(self).col == 0,
    {
        self.row = (self.row + 1) % 23;
        self.col = 0;
    }
}

/// Draws the rows of a glyph into the character cell at (`row`, `col`).
fn draw_glyph(ram: &mut RAM, row: Word, col: Word, bitmap: &[Word; 11])
    requires
        old(ram).wf(),
        0 <= row <= 22,
        0 <= col <= 63,
    ensures
        final(ram)@ == draw_glyph_rows(old(ram)@, row, col, bitmap@, 0),
        final(ram).wf(),
{
    let ghost bits = bitmap@;
    let ghost ram0 = ram@;
    let mut i: usize = 0;
    while i < 11
        invariant
            0 <= i <= 11,
            bitmap@ == bits,
            bits.len() == 11,
            0 <= row <= 22,
            0 <= col <= 63,
            ram@.len() == MEM_SIZE,
            draw_glyph_rows(ram@, row, col, bits, i as int) == draw_glyph_rows(ram0, row, col, bits, 0),
        decreases 11 - i,
    {
        let ghost before = ram@;
        let mut row_bits = bitmap[i];
        let mut mask: Word = 255;
        let offset = (col % SUB_COLUMNS) * CHAR_WIDTH;
        row_bits = row_bits << offset;
        mask = mask << offset;
        let address = RAM::SCREEN + RAM::SCREEN_ROW_LENGTH + (11 * row + i as Word) * RAM::SCREEN_ROW_LENGTH + col / SUB_COLUMNS;
        let w = ram.read(address);
        ram.write(address, w & !mask);
        let w2 = ram.read(address);
        ram.write(address, w2 | row_bits);
        proof {
            assert(ram@ =~= before.update(address as int, (before[address as int] & !mask) | row_bits));
        }
        i = i + 1;
    }
}

impl RunState {
    /// Draws the glyph of `c` in the cell under the cursor.
    fn draw_char(&mut self, c: Word)
        requires
            old(self).wf(),
        ensures
            final(self).ram@ == draw_char_spec(old(self).ram@, old(self).os@, c),
            final(self).os@ == old(self).os@,
            os_frame(old(self)@, final(self)@),
            final(self).wf(),
    {
        let bitmap = character_bitmaps(c);
        let col = self.os.output.col;
        let row = self.os.output.row;
        draw_glyph(&mut self.ram, row, col, &bitmap);
    }
}

/// Zeroes the screen.
fn clear_screen(ram: &mut RAM)
    requires
        old(ram).wf(),
    ensures
        final(ram)@ == clear_screen_spec(old(ram)@),
{
    let ghost ram0 = ram@;
    let mut a: Word = RAM::SCREEN;
    while a < RAM::KBD
        invariant
            16384 <= a <= 24576,
            ram@.len() == MEM_SIZE,
            ram0.len() == MEM_SIZE,
            forall|i: int| 0 <= i < MEM_SIZE ==> ram@[i] == (if 16384 <= i < a { 0 } else { ram0[i] }),
        decreases 24576 - a,
    {
        ram.write(a, 0);
        a = a + 1;
    }
    assert(ram@ =~= clear_screen_spec(ram0));
}

/// The decimal value of the words from `start` to `end`.
fn digits_value(ram: &RAM, start: Word, end: Word) -> (v: i64)
    requires
        ram.wf(),
        0 <= start <= end,
        digit_fold(ram@, start as int, end as int, 0) is Some,
    ensures
        v == digit_fold(ram@, start as int, end as int, 0).unwrap(),
        v >= 0,
{
    let mut acc: i64 = 0;
    let mut k: Word = start;
    while k < end
        invariant
            0 <= start <= k <= end,
            ram.wf(),
            0 <= acc,
            digit_fold(ram@, k as int, end as int, acc as int) == digit_fold(ram@, start as int, end as int, 0),
            digit_fold(ram@, start as int, end as int, 0) is Some,
        decreases end - k,
    {
        let w = ram.read(k);
        let b = w as u8;
        let d = (b - 48) as i64;
        acc = acc * 10 + d;
        k = k + 1;
    }
    acc
}

/// Writes `codes` as the characters of the string at `address`.
fn write_chars(ram: &mut RAM, address: Word, codes: &Vec<Word>)
    requires
        old(ram).wf(),
        write_codes(old(ram)@, address as int, codes@, 0) is Some,
    ensures
        final(ram)@ == write_codes(old(ram)@, address as int, codes@, 0).unwrap(),
        final(ram).wf(),
{
    let ghost ram0 = ram@;
    let mut i: usize = 0;
    while i < codes.len()
        invariant
            i <= codes@.len(),
            ram@.len() == MEM_SIZE,
            write_codes(ram@, address as int, codes@, i as int) == write_codes(ram0, address as int, codes@, 0),
            write_codes(ram0, address as int, codes@, 0) is Some,
        decreases codes@.len() - i,
    {
        ram.write(address + 2 + i as Word, codes[i]);
        i = i + 1;
    }
}

impl RunState {
    pub fn noop(&mut self) -> (r: Word)
        requires
            os_ready(OsFunction::Noop, old(self)@),
        ensures
            os_applied(OsFunction::Noop, old(self)@, final(self)@, r),
    {
        0
    }

    pub fn math_multiply(&mut self) -> (r: Word)
        requires
            os_ready(OsFunction::MathMultiply, old(self)@),
        ensures
            os_applied(OsFunction::MathMultiply, old(self)@, final(self)@, r),
    {
        let x = self.ram.get(0, PushSegment::Argument, 0);
        let y = self.ram.get(0, PushSegment::Argument, 1);
        x * y
    }

    pub fn math_divide(&mut self) -> (r: Word)
        requires
            os_ready(OsFunction::MathDivide, old(self)@),
        ensures
            os_applied(OsFunction::MathDivide, old(self)@, final(self)@, r),
    {
        let x = self.ram.get(0, PushSegment::Argument, 0);
        let y = self.ram.get(0, PushSegment::Argument, 1);
        if x == i16::MIN && y == -1 {
            assert(32768int / -1int == -32768) by (nonlinear_arith);
            assert(trunc_div(x as int, y as int) == 32768);
        }
        x / y
    }

    pub fn math_min(&mut self) -> (r: Word)
        requires
            os_ready(OsFunction::MathMin, old(self)@),
        ensures
            os_applied(OsFunction::MathMin, old(self)@, final(self)@, r),
    {
        let x = self.ram.get(0, PushSegment::Argument, 0);
        let y = self.ram.get(0, PushSegment::Argument, 1);
        if x <= y { x } else { y }
    }

    pub fn math_max(&mut self) -> (r: Word)
        requires
            os_ready(OsFunction::MathMax, old(self)@),
        ensures
            os_applied(OsFunction::MathMax, old(self)@, final(self)@, r),
    {
        let x = self.ram.get(0, PushSegment::Argument, 0);
        let y = self.ram.get(0, PushSegment::Argument, 1);
        if x >= y { x } else { y }
    }

    pub fn math_sqrt(&mut self) -> (r: Word)
        requires
            os_ready(OsFunction::MathSqrt, old(self)@),
        ensures
            os_applied(OsFunction::MathSqrt, old(self)@, final(self)@, r),
    {
        let x = self.ram.get(0, PushSegment::Argument, 0);
        isqrt_word(x)
    }

    pub fn math_abs(&mut self) -> (r: Word)
        requires
            os_ready(OsFunction::MathAbs, old(self)@),
        ensures
            os_applied(OsFunction::MathAbs, old(self)@, final(self)@, r),
    {
        let x = self.ram.get(0, PushSegment::Argument, 0);
        if x < 0 { -x } else { x }
    }

    pub fn screen_clear_screen(&mut self) -> (r: Word)
        requires
            os_ready(OsFunction::ScreenClearScreen, old(self)@),
        ensures
            os_applied(OsFunction::ScreenClearScreen, old(self)@, final(self)@, r),
    {
        clear_screen(&mut self.ram);
        0
    }

    pub fn screen_set_color(&mut self) -> (r: Word)
        requires
            os_ready(OsFunction::ScreenSetColor, old(self)@),
        ensures
            os_applied(OsFunction::ScreenSetColor, old(self)@, final(self)@, r),
    {
        self.os.screen.color = self.ram.get(0, PushSegment::Argument, 0) != 0;
        0
    }

    pub fn screen_draw_pixel(&mut self) -> (r: Word)
        requires
            os_ready(OsFunction::ScreenDrawPixel, old(self)@),
        ensures
            os_applied(OsFunction::ScreenDrawPixel, old(self)@, final(self)@, r),
    {
        let x = self.ram.get(0, PushSegment::Argument, 0);
        let y = self.ram.get(0, PushSegment::Argument, 1);
        let color = self.os.screen.color;
        self.ram.set_pixel(x, y, color);
        0
    }

    pub fn keyboard_key_pressed(&mut self) -> (r: Word)
        requires
            os_ready(OsFunction::KeyboardKeyPressed, old(self)@),
        ensures
            os_applied(OsFunction::KeyboardKeyPressed, old(self)@, final(self)@, r),
    {
        self.ram.read(RAM::KBD)
    }

    pub fn memory_peek(&mut self) -> (r: Word)
        requires
            os_ready(OsFunction::MemoryPeek, old(self)@),
        ensures
            os_applied(OsFunction::MemoryPeek, old(self)@, final(self)@, r),
    {
        let address = self.ram.get(0, PushSegment::Argument, 0);
        self.ram.read(address)
    }

    pub fn memory_poke(&mut self) -> (r: Word)
        requires
            os_ready(OsFunction::MemoryPoke, old(self)@),
        ensures
            os_applied(OsFunction::MemoryPoke, old(self)@, final(self)@, r),
    {
        let address = self.ram.get(0, PushSegment::Argument, 0);
        let value = self.ram.get(0, PushSegment::Argument, 1);
        self.ram.write(address, value);
        0
    }

    pub fn memory_alloc(&mut self) -> (r: Word)
        requires
            os_ready(OsFunction::MemoryAlloc, old(self)@),
        ensures
            os_applied(OsFunction::MemoryAlloc, old(self)@, final(self)@, r),
    {
        let size = self.ram.get(0, PushSegment::Argument, 0);
        self.os.memory.allocate(size).unwrap()
    }

    pub fn memory_dealloc(&mut self) -> (r: Word)
        requires
            os_ready(OsFunction::MemoryDealloc, old(self)@),
        ensures
            os_applied(OsFunction::MemoryDealloc, old(self)@, final(self)@, r),
    {
        let object = self.ram.get(0, PushSegment::Argument, 0);
        let freed = self.os.memory.free(object);
        assert(freed);
        0
    }

    pub fn string_new(&mut self) -> (r: Word)
        requires
            os_ready(OsFunction::StringNew, old(self)@),
        ensures
            os_applied(OsFunction::StringNew, old(self)@, final(self)@, r),
    {
        let initial_capacity = self.ram.get(0, PushSegment::Argument, 0);
        let address = self.os.memory.allocate(2 + initial_capacity).unwrap();
        self.ram.write(address, 0);
        self.ram.write(address + 1, initial_capacity);
        address
    }

    pub fn string_length(&mut self) -> (r: Word)
        requires
            os_ready(OsFunction::StringLength, old(self)@),
        ensures
            os_applied(OsFunction::StringLength, old(self)@, final(self)@, r),
    {
        let address = self.ram.get(0, PushSegment::Argument, 0);
        self.ram.read(address)
    }

    /// Character `index` of the string at `address`.
    fn char_at(&self, address: Word, index: Word) -> (r: Word)
        requires
            self.wf(),
            string_char(self.ram@, address as int, index as int) is Some,
        ensures
            Some(r) == string_char(self.ram@, address as int, index as int),
    {
        self.ram.read(address + 2 + index)
    }

    pub fn string_char_at(&mut self) -> (r: Word)
        requires
            os_ready(OsFunction::StringCharAt, old(self)@),
        ensures
            os_applied(OsFunction::StringCharAt, old(self)@, final(self)@, r),
    {
        let address = self.ram.get(0, PushSegment::Argument, 0);
        let index = self.ram.get(0, PushSegment::Argument, 1);
        self.char_at(address, index)
    }

    pub fn string_set_char_at(&mut self) -> (r: Word)
        requires
            os_ready(OsFunction::StringSetCharAt, old(self)@),
        ensures
            os_applied(OsFunction::StringSetCharAt, old(self)@, final(self)@, r),
    {
        let address = self.ram.get(0, PushSegment::Argument, 0);
        let index = self.ram.get(0, PushSegment::Argument, 1);
        let new_value = self.ram.get(0, PushSegment::Argument, 2);
        self.ram.write(address + 2 + index, new_value);
        0
    }

    pub fn string_append_char(&mut self) -> (r: Word)
        requires
            os_ready(OsFunction::StringAppendChar, old(self)@),
        ensures
            os_applied(OsFunction::StringAppendChar, old(self)@, final(self)@, r),
    {
        let address = self.ram.get(0, PushSegment::Argument, 0);
        let new_char = self.ram.get(0, PushSegment::Argument, 1);
        let old_length = self.ram.read(address);
        self.ram.write(address, old_length + 1);
        self.ram.write(address + 2 + old_length, new_char);
        address
    }

    pub fn string_erase_last_char(&mut self) -> (r: Word)
        requires
            os_ready(OsFunction::StringEraseLastChar, old(self)@),
        ensures
            os_applied(OsFunction::StringEraseLastChar, old(self)@, final(self)@, r),
    {
        let address = self.ram.get(0, PushSegment::Argument, 0);
        let length = self.ram.read(address);
        self.ram.write(address, length - 1);
        0
    }

    pub fn string_int_value(&mut self) -> (r: Word)
        requires
            os_ready(OsFunction::StringIntValue, old(self)@),
        ensures
            os_applied(OsFunction::StringIntValue, old(self)@, final(self)@, r),
    {
        let address = self.ram.get(0, PushSegment::Argument, 0);
        let length = self.ram.read(address);
        let mut start = address + 2;
        let is_negative = self.ram.read(start) == 45;
        if is_negative {
            start = start + 1;
        }
        let value = digits_value(&self.ram, start, address + 2 + length);
        (if is_negative { -value } else { value }) as Word
    }

    pub fn string_set_int(&mut self) -> (r: Word)
        requires
            os_ready(OsFunction::StringSetInt, old(self)@),
        ensures
            os_applied(OsFunction::StringSetInt, old(self)@, final(self)@, r),
    {
        let address = self.ram.get(0, PushSegment::Argument, 0);
        let value = self.ram.get(0, PushSegment::Argument, 1);
        let codes = decimal_codes(value);
        write_chars(&mut self.ram, address, &codes);
        self.ram.write(address, codes.len() as Word);
        0
    }

    pub fn string_backspace(&mut self) -> (r: Word)
        requires
            os_ready(OsFunction::StringBackSpace, old(self)@),
        ensures
            os_applied(OsFunction::StringBackSpace, old(self)@, final(self)@, r),
    {
        129
    }

    pub fn string_double_quote(&mut self) -> (r: Word)
        requires
            os_ready(OsFunction::StringDoubleQuote, old(self)@),
        ensures
            os_applied(OsFunction::StringDoubleQuote, old(self)@, final(self)@, r),
    {
        34
    }

    pub fn string_new_line(&mut self) -> (r: Word)
        requires
            os_ready(OsFunction::StringNewLine, old(self)@),
        ensures
            os_applied(OsFunction::StringNewLine, old(self)@, final(self)@, r),
    {
        128
    }
}

impl RunState {
    /// Moves the cursor to (`row`, `col`) and clears that cell; `None`, with nothing
    /// changed, off the text area.
    fn move_cursor(&mut self, row: Word, col: Word) -> (r: Option<()>)
        requires
            old(self).wf(),
        ensures
            match move_cursor_spec(old(self).ram@, old(self).os@, row, col) {
                None => r is None && final(self)@ == old(self)@,
                Some(p) => r is Some && final(self).ram@ == p.0 && final(self).os@ == p.1,
            },
            os_frame(old(self)@, final(self)@),
            final(self).wf(),
    {
        if !(0 <= row && row <= 22) || !(0 <= col && col < 63) {
            return None;
        }
        self.os.output.row = row;
        self.os.output.col = col;
        self.draw_char(32);
        Some(())
    }

    /// Moves the cursor one cell back and clears it.
    fn backspace(&mut self)
        requires
            old(self).wf(),
        ensures
            (final(self).ram@, final(self).os@) == backspace_spec(old(self).ram@, old(self).os@),
            os_frame(old(self)@, final(self)@),
            final(self).wf(),
    {
        let col = (self.os.output.col + 63) % 64;
        let row = if col == 63 { (self.os.output.row + 22) % 23 } else { self.os.output.row };
        let _ = self.move_cursor(row, col);
    }

    /// Prints one character at the cursor.
    fn print_char(&mut self, c: Word)
        requires
            old(self).wf(),
        ensures
            (final(self).ram@, final(self).os@) == print_char_spec(old(self).ram@, old(self).os@, c),
            os_frame(old(self)@, final(self)@),
            final(self).wf(),
    {
        if c == self.string_new_line() {
            self.os.output.println();
            return;
        }
        if c == self.string_backspace() {
            self.backspace();
            return;
        }
        self.draw_char(c);
        self.os.output.col = (self.os.output.col + 1) % 64;
        self.os.output.row = if self.os.output.col == 0 {
            (self.os.output.row + 1) % 23
        } else {
            self.os.output.row
        };
    }

    /// Prints the string at `address`.
    fn print_string(&mut self, address: Word)
        requires
            old(self).wf(),
            read_at(old(self).ram@, address as int) is Some,
            print_string_from(
                old(self).ram@,
                old(self).os@,
                address as int,
                0,
                old(self).ram@[address as int] as int,
            ) is Some,
        ensures
            (final(self).ram@, final(self).os@) == print_string_from(
                old(self).ram@,
                old(self).os@,
                address as int,
                0,
                old(self).ram@[address as int] as int,
            ).unwrap(),
            os_frame(old(self)@, final(self)@),
            final(self).wf(),
    {
        let ghost goal = print_string_from(self.ram@, self.os@, address as int, 0, self.ram@[address as int] as int);
        let length = self.ram.read(address);
        let mut i: Word = 0;
        while i < length
            invariant
                0 <= i,
                i <= length || length < 0,
                self.wf(),
                os_frame(old(self)@, self@),
                print_string_from(self.ram@, self.os@, address as int, i as int, length as int) == goal,
                goal is Some,
            decreases length - i,
        {
            let c = self.char_at(address, i);
            self.print_char(c);
            i = i + 1;
        }
    }

    /// Prints the decimal text of `value`.
    fn print_int(&mut self, value: Word)
        requires
            old(self).wf(),
        ensures
            (final(self).ram@, final(self).os@) == print_codes(old(self).ram@, old(self).os@, int_codes(value as int), 0),
            os_frame(old(self)@, final(self)@),
            final(self).wf(),
    {
        let ghost goal = print_codes(self.ram@, self.os@, int_codes(value as int), 0);
        let codes = decimal_codes(value);
        let mut i: usize = 0;
        while i < codes.len()
            invariant
                i <= codes@.len(),
                codes@ == int_codes(value as int),
                self.wf(),
                os_frame(old(self)@, self@),
                print_codes(self.ram@, self.os@, codes@, i as int) == goal,
            decreases codes@.len() - i,
        {
            self.print_char(codes[i]);
            i = i + 1;
        }
    }

    pub fn output_move_cursor(&mut self) -> (r: Word)
        requires
            os_ready(OsFunction::OutputMoveCursor, old(self)@),
        ensures
            os_applied(OsFunction::OutputMoveCursor, old(self)@, final(self)@, r),
    {
        let row = self.ram.get(0, PushSegment::Argument, 0);
        let col = self.ram.get(0, PushSegment::Argument, 1);
        let moved = self.move_cursor(row, col);
        assert(moved is Some);
        0
    }

    pub fn output_print_char(&mut self) -> (r: Word)
        requires
            os_ready(OsFunction::OutputPrintChar, old(self)@),
        ensures
            os_applied(OsFunction::OutputPrintChar, old(self)@, final(self)@, r),
    {
        let c = self.ram.get(0, PushSegment::Argument, 0);
        self.print_char(c);
        0
    }

    pub fn output_print_string(&mut self) -> (r: Word)
        requires
            os_ready(OsFunction::OutputPrintString, old(self)@),
        ensures
            os_applied(OsFunction::OutputPrintString, old(self)@, final(self)@, r),
    {
        let address = self.ram.get(0, PushSegment::Argument, 0);
        self.print_string(address);
        0
    }

    pub fn output_print_int(&mut self) -> (r: Word)
        requires
            os_ready(OsFunction::OutputPrintInt, old(self)@),
        ensures
            os_applied(OsFunction::OutputPrintInt, old(self)@, final(self)@, r),
    {
        let value = self.ram.get(0, PushSegment::Argument, 0);
        self.print_int(value);
        0
    }

    pub fn output_println(&mut self) -> (r: Word)
        requires
            os_ready(OsFunction::OutputPrintln, old(self)@),
        ensures
            os_applied(OsFunction::OutputPrintln, old(self)@, final(self)@, r),
    {
        self.os.output.println();
        0
    }

    pub fn output_backspace(&mut self) -> (r: Word)
        requires
            os_ready(OsFunction::OutputBackSpace, old(self)@),
        ensures
            os_applied(OsFunction::OutputBackSpace, old(self)@, final(self)@, r),
    {
        self.backspace();
        0
    }
}

/// Sets pixels `x_start` to `x_end` (both included) of row `y` to `color`.
fn fill_span(ram: &mut RAM, x_start: Word, x_end: Word, y: Word, color: bool)
    requires
        old(ram).wf(),
        fill_span_spec(old(ram)@, color, x_start as int, x_end as int, y) is Some,
    ensures
        final(ram)@ == fill_span_spec(old(ram)@, color, x_start as int, x_end as int, y).unwrap(),
        final(ram).wf(),
{
    if x_start > x_end {
        return;
    }
    let ghost goal = fill_span_spec(ram@, color, x_start as int, x_end as int, y);
    let mut x = x_start;
    loop
        invariant_except_break
            fill_span_spec(ram@, color, x as int, x_end as int, y) == goal,
        invariant
            x_start <= x <= x_end,
            ram.wf(),
            goal is Some,
        ensures
            ram@ == goal.unwrap(),
        decreases x_end - x,
    {
        ram.set_pixel(x, y, color);
        if x == x_end {
            assert(fill_span_spec(ram@, color, x_end + 1, x_end as int, y) == Some(ram@));
            break;
        }
        x = x + 1;
    }
}

/// Fills rows `y1` to `y2 - 1` from `x1` to `x2`.
fn fill_rect(ram: &mut RAM, x1: Word, y1: Word, x2: Word, y2: Word, color: bool)
    requires
        old(ram).wf(),
        rect_rows(old(ram)@, color, x1, x2, y1 as int, y2 as int) is Some,
    ensures
        final(ram)@ == rect_rows(old(ram)@, color, x1, x2, y1 as int, y2 as int).unwrap(),
        final(ram).wf(),
{
    let ghost goal = rect_rows(ram@, color, x1, x2, y1 as int, y2 as int);
    let mut y = y1;
    while y < y2
        invariant
            y1 <= y,
            y <= y2 || y2 < y1,
            ram.wf(),
            goal is Some,
            rect_rows(ram@, color, x1, x2, y as int, y2 as int) == goal,
        decreases y2 - y,
    {
        fill_span(ram, x1, x2, y, color);
        y = y + 1;
    }
}

/// Fills the rows `y_start` to `y_end` (both included) of a disc.
fn fill_circle(ram: &mut RAM, cx: Word, cy: Word, r2: Word, y_start: Word, y_end: Word, color: bool)
    requires
        old(ram).wf(),
        r2 >= 0,
        circle_rows(old(ram)@, color, cx, cy, r2, y_start as int, y_end as int) is Some,
    ensures
        final(ram)@ == circle_rows(old(ram)@, color, cx, cy, r2, y_start as int, y_end as int).unwrap(),
        final(ram).wf(),
{
    if y_start > y_end {
        return;
    }
    let ghost goal = circle_rows(ram@, color, cx, cy, r2, y_start as int, y_end as int);
    let mut y = y_start;
    loop
        invariant_except_break
            circle_rows(ram@, color, cx, cy, r2, y as int, y_end as int) == goal,
        invariant
            y_start <= y <= y_end,
            ram.wf(),
            r2 >= 0,
            goal is Some,
        ensures
            ram@ == goal.unwrap(),
        decreases y_end - y,
    {
        let d = y - cy;
        let dist = if d < 0 { -d } else { d };
        let y2 = dist * dist;
        assert(y2 >= 0) by (nonlinear_arith)
            requires y2 == dist * dist;
        let diff = r2 - y2;
        let x_dist = isqrt_word(if diff < 0 { -diff } else { diff });
        fill_span(ram, cx - x_dist, cx + x_dist, y, color);
        if y == y_end {
            assert(circle_rows(ram@, color, cx, cy, r2, y_end + 1, y_end as int) == Some(ram@));
            break;
        }
        y = y + 1;
    }
}

/// Walks from (`x1`, `y1`) to (`x2`, `y2`) with Bresenham's algorithm, setting each
/// pixel on the way.
fn walk_line(ram: &mut RAM, x1: Word, y1: Word, x2: Word, y2: Word, color: bool)
    requires
        old(ram).wf(),
        draw_line_spec(old(ram)@, color, x1, y1, x2, y2) is Some,
    ensures
        final(ram)@ == draw_line_spec(old(ram)@, color, x1, y1, x2, y2).unwrap(),
        final(ram).wf(),
{
    let ghost goal = draw_line_spec(ram@, color, x1, y1, x2, y2);
    let ddx = x2 - x1;
    let ddy = y2 - y1;
    let dx = if ddx < 0 { -ddx } else { ddx };
    let sx: Word = if ddx > 0 { 1 } else if ddx < 0 { -1 } else { 0 };
    let dy = -(if ddy < 0 { -ddy } else { ddy });
    let sy: Word = if ddy > 0 { 1 } else if ddy < 0 { -1 } else { 0 };
    let mut error = dx + dy;
    let mut x = x1;
    let mut y = y1;
    assert(abs(x - x1) * dy + abs(y - y1) * dx == 0) by (nonlinear_arith)
        requires x == x1, y == y1;
    assert(line_inv(x as int, y as int, error as int, x1 as int, y1 as int, x2 as int, y2 as int));
    loop
        invariant_except_break
            line_from(ram@, color, x as int, y as int, error as int, x1 as int, y1 as int, x2 as int, y2 as int) == goal,
        invariant
            ram.wf(),
            goal is Some,
            dx == abs(x2 - x1),
            dy == -abs(y2 - y1),
            sx == sign(x2 - x1),
            sy == sign(y2 - y1),
            line_inv(x as int, y as int, error as int, x1 as int, y1 as int, x2 as int, y2 as int),
        ensures
            ram@ == goal.unwrap(),
        decreases abs(x2 - x) + abs(y2 - y),
    {
        ram.set_pixel(x, y, color);
        if x == x2 && y == y2 {
            break;
        }
        let e2 = 2 * error;
        let ghost n = line_next(x as int, y as int, error as int, x1 as int, y1 as int, x2 as int, y2 as int);
        proof {
            if !(2 * error >= dy && x2 == x1) && !(2 * error <= dx && y2 == y1) {
                lemma_line_step(x as int, y as int, error as int, x1 as int, y1 as int, x2 as int, y2 as int);
            }
        }
        if e2 >= dy {
            if x2 == x1 {
                break;
            }
            error = error + dy;
            x = x + sx;
        }
        if e2 <= dx {
            if y2 == y1 {
                break;
            }
            error = error + dx;
            y = y + sy;
        }
        assert(x as int == n.0 && y as int == n.1 && error as int == n.2);
    }
}

impl RunState {
    pub fn screen_draw_line(&mut self) -> (r: Word)
        requires
            os_ready(OsFunction::ScreenDrawLine, old(self)@),
        ensures
            os_applied(OsFunction::ScreenDrawLine, old(self)@, final(self)@, r),
    {
        let x1 = self.ram.get(0, PushSegment::Argument, 0);
        let y1 = self.ram.get(0, PushSegment::Argument, 1);
        let x2 = self.ram.get(0, PushSegment::Argument, 2);
        let y2 = self.ram.get(0, PushSegment::Argument, 3);
        let color = self.os.screen.color;
        walk_line(&mut self.ram, x1, y1, x2, y2, color);
        0
    }

    pub fn screen_draw_rectangle(&mut self) -> (r: Word)
        requires
            os_ready(OsFunction::ScreenDrawRectangle, old(self)@),
        ensures
            os_applied(OsFunction::ScreenDrawRectangle, old(self)@, final(self)@, r),
    {
        let x1 = self.ram.get(0, PushSegment::Argument, 0);
        let y1 = self.ram.get(0, PushSegment::Argument, 1);
        let x2 = self.ram.get(0, PushSegment::Argument, 2);
        let y2 = self.ram.get(0, PushSegment::Argument, 3);
        let color = self.os.screen.color;
        fill_rect(&mut self.ram, x1, y1, x2, y2, color);
        0
    }

    pub fn screen_draw_circle(&mut self) -> (r: Word)
        requires
            os_ready(OsFunction::ScreenDrawCircle, old(self)@),
        ensures
            os_applied(OsFunction::ScreenDrawCircle, old(self)@, final(self)@, r),
    {
        let center_x = self.ram.get(0, PushSegment::Argument, 0);
        let center_y = self.ram.get(0, PushSegment::Argument, 1);
        let radius = self.ram.get(0, PushSegment::Argument, 2);
        let r2 = radius * radius;
        assert(r2 >= 0) by (nonlinear_arith)
            requires r2 == radius * radius;
        let color = self.os.screen.color;
        fill_circle(&mut self.ram, center_x, center_y, r2, center_y - radius, center_y + radius, color);
        0
    }
}

impl RunState {
    /// Runs `function_name` as an operating system function and pushes its return value;
    /// false, with nothing changed, where it is none.
    pub fn call_os(&mut self, function_name: &str) -> (r: bool)
        requires
            old(self).wf(),
            os_call(function_name@, old(self).ram@, old(self).os@) is Some,
        ensures
            match os_call(function_name@, old(self).ram@, old(self).os@).unwrap() {
                None => !r && final(self)@ == old(self)@,
                Some(p) => r && final(self).ram@ == p.0 && final(self).os@ == p.1,
            },
            os_frame(old(self)@, final(self)@),
            final(self).wf(),
    {
        let function = match os_function_of(function_name) {
            None => {
                return false;
            },
            Some(f) => f,
        };
        self.call(function);
        true
    }

    /// Runs `f` and pushes its return value.
    fn call(&mut self, f: OsFunction)
        requires
            os_ready(f, old(self)@),
            push_ram(
                os_effect(f, old(self).ram@, old(self).os@).unwrap().0,
                os_effect(f, old(self).ram@, old(self).os@).unwrap().2,
            ) is Some,
        ensures
            ({
                let e = os_effect(f, old(self).ram@, old(self).os@).unwrap();
                &&& Some(final(self).ram@) == push_ram(e.0, e.2)
                &&& final(self).os@ == e.1
            }),
            os_frame(old(self)@, final(self)@),
            final(self).wf(),
    {
        let return_value = self.apply(f);
        self.ram.push(return_value);
    }

    /// Runs `f` and returns its return value.
    fn apply(&mut self, f: OsFunction) -> (r: Word)
        requires
            os_ready(f, old(self)@),
        ensures
            os_applied(f, old(self)@, final(self)@, r),
    {
        match f {
            OsFunction::Noop => self.noop(),
            OsFunction::MathMultiply => self.math_multiply(),
            OsFunction::MathDivide => self.math_divide(),
            OsFunction::MathMin => self.math_min(),
            OsFunction::MathMax => self.math_max(),
            OsFunction::MathSqrt => self.math_sqrt(),
            OsFunction::MathAbs => self.math_abs(),
            OsFunction::MemoryAlloc => self.memory_alloc(),
            OsFunction::MemoryDealloc => self.memory_dealloc(),
            OsFunction::KeyboardKeyPressed => self.keyboard_key_pressed(),
            OsFunction::ScreenClearScreen => self.screen_clear_screen(),
            OsFunction::ScreenSetColor => self.screen_set_color(),
            OsFunction::ScreenDrawPixel => self.screen_draw_pixel(),
            OsFunction::ScreenDrawLine => self.screen_draw_line(),
            OsFunction::ScreenDrawRectangle => self.screen_draw_rectangle(),
            OsFunction::ScreenDrawCircle => self.screen_draw_circle(),
            OsFunction::MemoryPeek => self.memory_peek(),
            OsFunction::MemoryPoke => self.memory_poke(),
            OsFunction::StringNew => self.string_new(),
            OsFunction::StringLength => self.string_length(),
            OsFunction::StringCharAt => self.string_char_at(),
            OsFunction::StringSetCharAt => self.string_set_char_at(),
            OsFunction::StringAppendChar => self.string_append_char(),
            OsFunction::StringEraseLastChar => self.string_erase_last_char(),
            OsFunction::StringIntValue => self.string_int_value(),
            OsFunction::StringSetInt => self.string_set_int(),
            OsFunction::StringBackSpace => self.string_backspace(),
            OsFunction::StringDoubleQuote => self.string_double_quote(),
            OsFunction::StringNewLine => self.string_new_line(),
            OsFunction::OutputMoveCursor => self.output_move_cursor(),
            OsFunction::OutputPrintChar => self.output_print_char(),
            OsFunction::OutputPrintString => self.output_print_string(),
            OsFunction::OutputPrintInt => self.output_print_int(),
            OsFunction::OutputPrintln => self.output_println(),
            OsFunction::OutputBackSpace => self.output_backspace(),
            OsFunction::SysError => {
                assert(false);
                0
            },
        }
    }
}

// ---------------------------------------------------------------- laws

/// A well-formed heap: every hole has a size of at least one, its end is recorded with
/// its size, and no block starts at it; every recorded end is the end of a hole; and holes
/// neither overlap nor touch.
pub open spec fn heap_wf(heap: Heap) -> bool {
    &&& forall|h: Word| #[trigger] heap.hole_starts.dom().contains(h) ==> {
        &&& heap.hole_starts[h] >= 1
        &&& in_word(h + heap.hole_starts[h])
        &&& heap.hole_ends.dom().contains((h + heap.hole_starts[h]) as Word)
        &&& heap.hole_ends[(h + heap.hole_starts[h]) as Word] == heap.hole_starts[h]
        &&& !heap.allocs.dom().contains(h)
    }
    &&& forall|e: Word| #[trigger] heap.hole_ends.dom().contains(e) ==> exists|h: Word|
        #[trigger] heap.hole_starts.dom().contains(h) && h + heap.hole_starts[h] == e
    &&& forall|h1: Word, h2: Word|
        #![trigger heap.hole_starts.dom().contains(h1), heap.hole_starts.dom().contains(h2)]
        heap.hole_starts.dom().contains(h1) && heap.hole_starts.dom().contains(h2) && h1 < h2
            ==> h1 + heap.hole_starts[h1] < h2
}

/// The heap the operating system starts with is well formed.
pub proof fn lemma_default_heap_wf()
    ensures
        heap_wf(os_default().heap),
{
    let heap = os_default().heap;
    assert forall|e: Word| #[trigger] heap.hole_ends.dom().contains(e) implies exists|h: Word|
        #[trigger] heap.hole_starts.dom().contains(h) && h + heap.hole_starts[h] == e by {
        assert(heap.hole_starts.dom().contains(0x0800));
    }
}

proof fn lemma_lowest_fit_exists(holes: Map<Word, Word>, size: Word, g: Word)
    requires
        fits(holes, size, g),
    ensures
        exists|h: Word| is_lowest_fit(holes, size, h),
    decreases g - i16::MIN,
{
    if exists|g2: Word| fits(holes, size, g2) && g2 < g {
        let g2 = choose|g2: Word| fits(holes, size, g2) && g2 < g;
        lemma_lowest_fit_exists(holes, size, g2);
    } else {
        assert(is_lowest_fit(holes, size, g));
    }
}

/// Freeing a block right after allocating it gives back the heap it was allocated from.
pub proof fn lemma_alloc_then_free(heap: Heap, size: Word)
    requires
        heap_wf(heap),
        size >= 1,
        alloc_heap(heap, size) matches Some(Some(_)),
    ensures
        dealloc_heap(alloc_heap(heap, size).unwrap().unwrap().0, alloc_heap(heap, size).unwrap().unwrap().1)
            == Some(Some(heap)),
{
    let h = lowest_fit(heap.hole_starts, size).unwrap();
    assert(exists|g: Word| fits(heap.hole_starts, size, g));
    let g0 = choose|g: Word| fits(heap.hole_starts, size, g);
    lemma_lowest_fit_exists(heap.hole_starts, size, g0);
    assert(is_lowest_fit(heap.hole_starts, size, h));
    let hs = heap.hole_starts[h];
    let end = (h + hs) as Word;
    let heap2 = alloc_at(heap, size, h);
    assert(heap.hole_starts.dom().contains(h));
    assert(!heap.hole_ends.dom().contains(h)) by {
        if heap.hole_ends.dom().contains(h) {
            let g = choose|g: Word| #[trigger] heap.hole_starts.dom().contains(g) && g + heap.hole_starts[g] == h;
            assert(heap.hole_starts.dom().contains(g));
            if g < h {
                assert(g + heap.hole_starts[g] < h);
            }
        }
    }
    assert(!heap.hole_starts.dom().contains(end)) by {
        if heap.hole_starts.dom().contains(end) {
            assert(h < end);
            assert(h + heap.hole_starts[h] < end);
        }
    }
    if hs != size {
        let k = (h + size) as Word;
        assert(k == h + size);
        assert(!heap.hole_starts.dom().contains(k)) by {
            if heap.hole_starts.dom().contains(k) {
                assert(h < k);
                assert(h + heap.hole_starts[h] < k);
            }
        }
    }
    let d = dealloc_heap(heap2, h).unwrap().unwrap();
    assert(d.hole_starts =~= heap.hole_starts);
    assert(d.hole_ends =~= heap.hole_ends);
    assert(d.allocs =~= heap.allocs);
}

proof fn lemma_digit_fold_snoc(ram: Seq<Word>, k: int, end: int, acc: int)
    requires
        k <= end,
    ensures
        digit_fold(ram, k, end + 1, acc) == (match digit_fold(ram, k, end, acc) {
            None => None,
            Some(v) => match digit_value(ram[end]) {
                None => None,
                Some(d) => if v * 10 + d > i64::MAX { None } else { Some(v * 10 + d) },
            },
        }),
    decreases end - k,
{
    if k < end {
        match digit_value(ram[k]) {
            None => {},
            Some(d) => {
                if acc * 10 + d <= i64::MAX {
                    lemma_digit_fold_snoc(ram, k + 1, end, acc * 10 + d);
                }
            },
        }
    } else {
        match digit_value(ram[k]) {
            None => {},
            Some(d) => {
                if acc * 10 + d <= i64::MAX {
                    assert(digit_fold(ram, k + 1, end + 1, acc * 10 + d) == Some(acc * 10 + d));
                }
            },
        }
    }
}

/// The codes of the digits of `n` are digit codes, the first not a '-', and reading them
/// back gives `n`.
proof fn lemma_codes_fold(ram: Seq<Word>, k: int, n: nat)
    requires
        n <= 32768,
        forall|j: int| 0 <= j < nat_codes(n).len() ==> ram[k + j] == #[trigger] nat_codes(n)[j],
    ensures
        digit_fold(ram, k, k + nat_codes(n).len(), 0) == Some(n as int),
        1 <= nat_codes(n).len(),
        nat_codes(n)[0] != 45,
    decreases n,
{
    let c = nat_codes(n);
    if n < 10 {
        assert(ram[k] == c[0]);
        assert((48 + n) as Word as u8 == 48 + n);
        assert(digit_fold(ram, k + 1, k + 1, n as int) == Some(n as int));
    } else {
        let c0 = nat_codes(n / 10);
        assert(c.drop_last() == c0);
        assert forall|j: int| 0 <= j < c0.len() implies ram[k + j] == #[trigger] c0[j] by {
            assert(c[j] == c0[j]);
            assert(ram[k + j] == c[j]);
        }
        lemma_codes_fold(ram, k, n / 10);
        lemma_digit_fold_snoc(ram, k, k + c0.len(), 0);
        assert(ram[k + c0.len()] == c[c0.len() as int]);
        assert(c[c0.len() as int] == (48 + n % 10) as Word);
        assert(((48 + n % 10) as Word) as u8 == 48 + n % 10);
        assert(n == (n / 10) * 10 + n % 10) by (nonlinear_arith);
        assert(c[0] == c0[0]);
    }
}

proof fn lemma_write_codes(ram: Seq<Word>, a: int, codes: Seq<Word>, i: int)
    requires
        ram.len() == MEM_SIZE,
        0 <= i <= codes.len(),
        write_codes(ram, a, codes, i) is Some,
    ensures
        write_codes(ram, a, codes, i).unwrap().len() == ram.len(),
        forall|j: int| i <= j < codes.len() ==> write_codes(ram, a, codes, i).unwrap()[a + 2 + j] == #[trigger] codes[j],
        forall|p: int| 0 <= p < ram.len() && (p < a + 2 + i || p >= a + 2 + codes.len())
            ==> #[trigger] write_codes(ram, a, codes, i).unwrap()[p] == ram[p],
        forall|j: int| i <= j < codes.len() ==> #[trigger] char_address(a, j) is Some,
    decreases codes.len() - i,
{
    if i < codes.len() {
        let p = char_address(a, i).unwrap();
        let ram2 = ram.update(p, codes[i]);
        lemma_write_codes(ram2, a, codes, i + 1);
        let r = write_codes(ram, a, codes, i).unwrap();
        assert(r == write_codes(ram2, a, codes, i + 1).unwrap());
        assert forall|j: int| i <= j < codes.len() implies #[trigger] char_address(a, j) is Some by {
            if j > i {
                assert(char_address(a, j) is Some);
            }
        }
        assert(r[p] == ram2[p]);
        assert forall|j: int| i <= j < codes.len() implies r[a + 2 + j] == #[trigger] codes[j] by {
            if j == i {
                assert(r[a + 2 + i] == ram2[a + 2 + i]);
            }
        }
    }
}

/// Reading the value of a string just set to the text of `v` gives back `v`, where the
/// string's last character is not at the top of the words (there its end leaves them).
pub proof fn lemma_set_int_then_int_value(ram: Seq<Word>, a: int, v: Word)
    requires
        ram.len() == MEM_SIZE,
        string_set_int_spec(ram, a, v) is Some,
        in_word(a + 2 + int_codes(v as int).len()),
    ensures
        string_int_value_spec(string_set_int_spec(ram, a, v).unwrap(), a) == Some(v),
{
    let codes = int_codes(v as int);
    let r1 = write_codes(ram, a, codes, 0).unwrap();
    lemma_write_codes(ram, a, codes, 0);
    let r = r1.update(a, codes.len() as Word);
    assert(r == string_set_int_spec(ram, a, v).unwrap());
    if v < 0 {
        let n = (-v) as nat;
        assert(codes == seq![45 as Word] + nat_codes(n));
        assert forall|j: int| 0 <= j < nat_codes(n).len() implies r[a + 3 + j] == #[trigger] nat_codes(n)[j] by {
            assert(codes[j + 1] == nat_codes(n)[j]);
            assert(char_address(a, j + 1) is Some);
            assert(r1[a + 2 + (j + 1)] == codes[j + 1]);
        }
        lemma_codes_fold(r, a + 3, n);
        assert(char_address(a, 0) is Some);
        assert(r[a + 2] == 45);
        assert(a + 3 + nat_codes(n).len() == a + 2 + codes.len());
        assert((codes.len() as Word) as int == codes.len());
    } else {
        let n = v as nat;
        assert forall|j: int| 0 <= j < nat_codes(n).len() implies r[a + 2 + j] == #[trigger] nat_codes(n)[j] by {
            assert(char_address(a, j) is Some);
            assert(r1[a + 2 + j] == codes[j]);
        }
        lemma_codes_fold(r, a + 2, n);
        assert((codes.len() as Word) as int == codes.len());
    }
}

/// The arithmetic functions of the operating system by their names: `Math.multiply` gives
/// the product of its two arguments where it is a word, `Math.min` the smaller and
/// `Math.max` the greater of them, and `Math.abs` the absolute value of its argument
/// (but for the least word, which has none); none of them changes the RAM or the rest of
/// the operating system.
pub proof fn lemma_math_functions(ram: Seq<Word>, os: OsState, x: Word, y: Word)
    requires
        arg(ram, 0) == Some(x),
        arg(ram, 1) == Some(y),
    ensures
        in_word(x * y) ==> os_effect(os_function("Math.multiply"@).unwrap(), ram, os) == Some((ram, os, (x * y) as Word)),
        os_effect(os_function("Math.min"@).unwrap(), ram, os) matches Some((r, o, v)) && r == ram && o == os && v <= x
            && v <= y && (v == x || v == y),
        os_effect(os_function("Math.max"@).unwrap(), ram, os) matches Some((r, o, v)) && r == ram && o == os && v >= x
            && v >= y && (v == x || v == y),
        x != i16::MIN ==> (os_effect(os_function("Math.abs"@).unwrap(), ram, os) matches Some((r, o, v)) && r == ram
            && o == os && v >= 0 && (v == x || v == -x)),
{
    reveal_strlit("Math.init");
    reveal_strlit("Math.multiply");
    reveal_strlit("Math.divide");
    reveal_strlit("Math.min");
    reveal_strlit("Math.max");
    reveal_strlit("Math.sqrt");
    reveal_strlit("Math.abs");
    assert("Math.init"@.len() == 9 && "Math.multiply"@.len() == 13 && "Math.divide"@.len() == 11);
    assert("Math.min"@.len() == 8 && "Math.max"@.len() == 8 && "Math.abs"@.len() == 8 && "Math.sqrt"@.len() == 9);
    assert("Math.min"@[6] != "Math.max"@[6]);
    assert("Math.abs"@[5] != "Math.min"@[5] && "Math.abs"@[5] != "Math.max"@[5]);
    assert("Math.min"@ != "Math.init"@ && "Math.min"@ != "Math.multiply"@ && "Math.min"@ != "Math.divide"@);
    assert("Math.max"@ != "Math.init"@ && "Math.max"@ != "Math.multiply"@ && "Math.max"@ != "Math.divide"@);
    assert("Math.max"@ != "Math.min"@);
    assert("Math.abs"@ != "Math.init"@ && "Math.abs"@ != "Math.multiply"@ && "Math.abs"@ != "Math.divide"@);
    assert("Math.abs"@ != "Math.min"@ && "Math.abs"@ != "Math.max"@ && "Math.abs"@ != "Math.sqrt"@);
    assert("Math.multiply"@ != "Math.init"@);
}

} // verus!

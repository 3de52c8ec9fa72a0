use vstd::prelude::*;
use vstd::wrapping::i16_specs;

use crate::hardware_parse::{assemble_hack_file, assemble_spec, instruction_bits, parse_program};
use crate::scan::{lemma_run_end, run_end, scan, trim_back, trim_back_exec, CharClass};
use crate::text::{digits_of, str_chars, int_text, int_to_string, nat_digits, push_str, string_from_chars};

verus! {

/// A machine word of the Hack computer.
pub type Word = i16;

/// The unsigned reading of a machine word.
pub type UWord = u16;

/// Number of words in ROM and in RAM.
pub const MEM_SIZE: usize = 32768;

/// Whether bit `pos` of `raw` is set.
pub open spec fn flag(raw: u16, pos: u32) -> bool {
    raw & (1u16 << pos) != 0
}

/// A C-instruction has its highest bit set; every other word is an A-instruction.
pub open spec fn is_c_instruction(raw: u16) -> bool {
    flag(raw, 15)
}

/// The Hack ALU: `x` is D, `y` is A or M, and bits 6 to 11 of the instruction select
/// zeroing and negation of the inputs, the operation (add or and), and negation of the output.
pub open spec fn alu(x: Word, y: Word, raw: u16) -> Word {
    let x1: Word = if flag(raw, 11) { 0 } else { x };
    let x2: Word = if flag(raw, 10) { !x1 } else { x1 };
    let y1: Word = if flag(raw, 9) { 0 } else { y };
    let y2: Word = if flag(raw, 8) { !y1 } else { y1 };
    let r: Word = if flag(raw, 7) { i16_specs::wrapping_add(x2, y2) } else { x2 & y2 };
    if flag(raw, 6) { !r } else { r }
}

#[derive(Clone, Copy, Debug, PartialEq, Eq, Structural)]
pub struct Instruction {
    raw: UWord,
}

#[allow(clippy::upper_case_acronyms)]
#[derive(Clone, Copy, Debug, PartialEq, Eq, Structural)]
pub enum DestinationRegisters {
    NoDestination,
    A,
    AM,
    AMD,
    AD,
    M,
    MD,
    D,
}

#[allow(clippy::upper_case_acronyms)]
#[derive(Clone, Copy, Debug, PartialEq, Eq, Structural)]
pub enum JumpCondition {
    NoJump,
    JGT,
    JEQ,
    JGE,
    JLT,
    JNE,
    JLE,
    JMP,
}

/// The three jump bits of a jump condition.
pub open spec fn jump_code(j: JumpCondition) -> UWord {
    match j {
        JumpCondition::NoJump => 0,
        JumpCondition::JGT => 1,
        JumpCondition::JEQ => 2,
        JumpCondition::JGE => 3,
        JumpCondition::JLT => 4,
        JumpCondition::JNE => 5,
        JumpCondition::JLE => 6,
        JumpCondition::JMP => 7,
    }
}

/// The three destination bits (A, D, M from high to low) of a destination.
pub open spec fn dst_code(d: DestinationRegisters) -> UWord {
    match d {
        DestinationRegisters::NoDestination => 0,
        DestinationRegisters::M => 1,
        DestinationRegisters::D => 2,
        DestinationRegisters::MD => 3,
        DestinationRegisters::A => 4,
        DestinationRegisters::AM => 5,
        DestinationRegisters::AD => 6,
        DestinationRegisters::AMD => 7,
    }
}

/// The jump condition that the three bits `j` encode.
pub open spec fn jump_of_code(j: UWord) -> JumpCondition {
    if j == 0 {
        JumpCondition::NoJump
    } else if j == 1 {
        JumpCondition::JGT
    } else if j == 2 {
        JumpCondition::JEQ
    } else if j == 3 {
        JumpCondition::JGE
    } else if j == 4 {
        JumpCondition::JLT
    } else if j == 5 {
        JumpCondition::JNE
    } else if j == 6 {
        JumpCondition::JLE
    } else {
        JumpCondition::JMP
    }
}

/// Whether a jump condition holds of an ALU output.
pub open spec fn jump_holds(j: JumpCondition, value: Word) -> bool {
    match j {
        JumpCondition::NoJump => false,
        JumpCondition::JGT => value > 0,
        JumpCondition::JEQ => value == 0,
        JumpCondition::JGE => value >= 0,
        JumpCondition::JLT => value < 0,
        JumpCondition::JNE => value != 0,
        JumpCondition::JLE => value <= 0,
        JumpCondition::JMP => true,
    }
}

/// The word that `Instruction::create` builds.
pub open spec fn c_instruction_bits(
    dst: DestinationRegisters,
    calculation_value: UWord,
    jump: JumpCondition,
) -> UWord {
    0x8000u16 | (calculation_value << 6u16) | (dst_code(dst) << 3u16) | jump_code(jump)
}

fn encode_jmp(jump_condition: JumpCondition) -> (r: UWord)
    ensures
        r == jump_code(jump_condition),
{
    match jump_condition {
        JumpCondition::NoJump => 0,
        JumpCondition::JGT => 1,
        JumpCondition::JEQ => 2,
        JumpCondition::JGE => 3,
        JumpCondition::JLT => 4,
        JumpCondition::JNE => 5,
        JumpCondition::JLE => 6,
        JumpCondition::JMP => 7,
    }
}

fn encode_dst_registers(dst_registers: DestinationRegisters) -> (r: UWord)
    ensures
        r == dst_code(dst_registers),
{
    match dst_registers {
        DestinationRegisters::NoDestination => 0,
        DestinationRegisters::M => 1,
        DestinationRegisters::D => 2,
        DestinationRegisters::MD => 3,
        DestinationRegisters::A => 4,
        DestinationRegisters::AM => 5,
        DestinationRegisters::AD => 6,
        DestinationRegisters::AMD => 7,
    }
}

enum YRegister {
    A,
    M,
}

enum Operator {
    And,
    Add,
}

enum InstructionType {
    A,
    C,
}

impl Instruction {
    /// The instruction word.
    pub closed spec fn bits(self) -> UWord {
        self.raw
    }

    pub fn new(raw: UWord) -> (res: Instruction)
        ensures
            res.bits() == raw,
    {
        Instruction { raw }
    }

    /// Reads an instruction word of the original 16-bit format; with a 16-bit word this keeps
    /// every bit.
    pub fn from_legacy(legacy_raw: u16) -> (res: Instruction)
        ensures
            res.bits() == legacy_raw,
    {
        let raw: u16 = (legacy_raw >> 15u16) << 15u16 | (legacy_raw & !(1u16 << 15u16));
        assert(((legacy_raw >> 15u16) << 15u16 | (legacy_raw & !(1u16 << 15u16))) == legacy_raw)
            by (bit_vector);
        Instruction { raw }
    }

    /// A C-instruction with the given destination, computation bits and jump.
    pub fn create(
        dst_registers: DestinationRegisters,
        calculation_value: UWord,
        jump_condition: JumpCondition,
    ) -> (res: Self)
        ensures
            res.bits() == c_instruction_bits(dst_registers, calculation_value, jump_condition),
    {
        let encoded_dst = encode_dst_registers(dst_registers);
        let encoded_calculation = calculation_value;
        let encoded_jump = encode_jmp(jump_condition);

        Instruction {
            raw: 0x8000u16 | (encoded_calculation << 6u16) | (encoded_dst << 3u16)
                | encoded_jump,
        }
    }

    pub(crate) fn flag(&self, pos: u32) -> (r: bool)
        requires
            pos < 16,
        ensures
            r == flag(self.bits(), pos),
    {
        self.raw & (1u16 << pos) != 0
    }

    fn instruction_type(&self) -> (r: InstructionType)
        ensures
            (r is C) == is_c_instruction(self.raw),
    {
        if self.flag(15) {
            InstructionType::C
        } else {
            InstructionType::A
        }
    }

    fn y_register(&self) -> (r: YRegister)
        ensures
            (r is M) == flag(self.raw, 12),
    {
        if self.flag(12) {
            YRegister::M
        } else {
            YRegister::A
        }
    }

    fn zero_x(&self) -> (r: bool)
        ensures
            r == flag(self.bits(), 11),
    {
        self.flag(11)
    }

    fn negate_x(&self) -> (r: bool)
        ensures
            r == flag(self.bits(), 10),
    {
        self.flag(10)
    }

    fn zero_y(&self) -> (r: bool)
        ensures
            r == flag(self.bits(), 9),
    {
        self.flag(9)
    }

    fn negate_y(&self) -> (r: bool)
        ensures
            r == flag(self.bits(), 8),
    {
        self.flag(8)
    }

    fn operator(&self) -> (r: Operator)
        ensures
            (r is Add) == flag(self.raw, 7),
    {
        if self.flag(7) {
            Operator::Add
        } else {
            Operator::And
        }
    }

    fn negate_out(&self) -> (r: bool)
        ensures
            r == flag(self.bits(), 6),
    {
        self.flag(6)
    }

    /// The computation bits (bits 6 to 14) of the instruction word.
    pub(crate) fn comp_bits(&self) -> (r: u16)
        ensures
            r == (self.bits() >> 6u16) & 0x01FFu16,
    {
        (self.raw >> 6u16) & 0x01FFu16
    }

    pub(crate) fn dst_has_a(&self) -> (r: bool)
        ensures
            r == flag(self.bits(), 5),
    {
        self.flag(5)
    }

    pub(crate) fn dst_has_d(&self) -> (r: bool)
        ensures
            r == flag(self.bits(), 4),
    {
        self.flag(4)
    }

    pub(crate) fn dst_has_m(&self) -> (r: bool)
        ensures
            r == flag(self.bits(), 3),
    {
        self.flag(3)
    }

    pub(crate) fn loaded_value(&self) -> (r: Word)
        ensures
            r == self.bits() as Word,
    {
        self.raw as Word
    }

    pub(crate) fn jump_condition(&self) -> (r: JumpCondition)
        ensures
            r == jump_of_code(self.bits() & 7),
    {
        let raw = self.raw;
        let j = raw & 7;
        assert(raw & 7 < 8) by (bit_vector);
        if j == 0 {
            JumpCondition::NoJump
        } else if j == 1 {
            JumpCondition::JGT
        } else if j == 2 {
            JumpCondition::JEQ
        } else if j == 3 {
            JumpCondition::JGE
        } else if j == 4 {
            JumpCondition::JLT
        } else if j == 5 {
            JumpCondition::JNE
        } else if j == 6 {
            JumpCondition::JLE
        } else {
            JumpCondition::JMP
        }
    }
}

impl JumpCondition {
    fn is_true(&self, value: Word) -> (r: bool)
        ensures
            r == jump_holds(*self, value),
    {
        match self {
            JumpCondition::NoJump => false,
            JumpCondition::JGT => value > 0,
            JumpCondition::JEQ => value == 0,
            JumpCondition::JGE => value >= 0,
            JumpCondition::JLT => value < 0,
            JumpCondition::JNE => value != 0,
            JumpCondition::JLE => value <= 0,
            JumpCondition::JMP => true,
        }
    }
}


/// Rust's truncating division of `x` by 16.
pub open spec fn tdiv16(x: int) -> int {
    if x >= 0 { x / 16 } else { -((-x) / 16) }
}

/// Rust's remainder of `x` by 16 (with the sign of `x`).
pub open spec fn trem16(x: int) -> int {
    x - 16 * tdiv16(x)
}

/// The RAM address of the screen word that holds pixel (x, y).
pub open spec fn pixel_address(x: Word, y: Word) -> int {
    16384 + y * 32 + tdiv16(x as int)
}

/// Whether pixel (x, y) can be addressed: the address arithmetic stays within a word and
/// the address and bit position are not negative.
pub open spec fn pixel_addressable(x: Word, y: Word) -> bool {
    &&& i16::MIN <= y * 32 <= i16::MAX
    &&& i16::MIN <= 16384 + y * 32 <= i16::MAX
    &&& 0 <= pixel_address(x, y) <= i16::MAX
    &&& trem16(x as int) >= 0
}

/// The bit mask of pixel (x, y) within its screen word.
pub open spec fn pixel_mask(x: Word) -> Word {
    1i16 << (trem16(x as int) as i16)
}

/// Whether pixel (x, y) is on in the RAM `ram`.
pub open spec fn pixel_on(ram: Seq<Word>, x: Word, y: Word) -> bool {
    ram[pixel_address(x, y)] & pixel_mask(x) != 0
}

/// The RAM with pixel (x, y) set to `value`: its screen word with the pixel's bit set or
/// cleared.
pub open spec fn with_pixel(ram: Seq<Word>, x: Word, y: Word, value: bool) -> Seq<Word> {
    ram.update(
        pixel_address(x, y),
        if value {
            ram[pixel_address(x, y)] | pixel_mask(x)
        } else {
            ram[pixel_address(x, y)] & !pixel_mask(x)
        },
    )
}

/// Whether (x, y) lies on the 512 by 256 screen.
pub open spec fn on_screen(x: Word, y: Word) -> bool {
    0 <= x < 512 && 0 <= y < 256
}

proof fn lemma_pixel_bits(w: i16, b: u16, b2: u16)
    by (bit_vector)
    requires
        b < 16,
        b2 < 16,
    ensures
        (w | (1i16 << b)) & (1i16 << b) != 0,
        (w & !(1i16 << b)) & (1i16 << b) == 0,
        b != b2 ==> (w | (1i16 << b)) & (1i16 << b2) == w & (1i16 << b2),
        b != b2 ==> (w & !(1i16 << b)) & (1i16 << b2) == w & (1i16 << b2),
{
}

/// Setting a pixel on the screen and reading it back gives the value set; every other
/// pixel on the screen reads as before, and only one word changes, a word of the screen.
pub proof fn lemma_set_pixel_reads_back(ram: Seq<Word>, x: Word, y: Word, value: bool)
    requires
        ram.len() == MEM_SIZE,
        on_screen(x, y),
    ensures
        pixel_addressable(x, y),
        pixel_on(with_pixel(ram, x, y, value), x, y) == value,
        forall|x2: Word, y2: Word|
            on_screen(x2, y2) && (x2 != x || y2 != y) ==> #[trigger] pixel_on(with_pixel(ram, x, y, value), x2, y2)
                == pixel_on(ram, x2, y2),
        16384 <= pixel_address(x, y) < 24576,
        forall|i: int| 0 <= i < ram.len() && i != pixel_address(x, y) ==> #[trigger] with_pixel(ram, x, y, value)[i] == ram[i],
{
    let a = pixel_address(x, y);
    let w = ram[a];
    let b = (x % 16) as u16;
    assert(trem16(x as int) == x % 16);
    assert(pixel_mask(x) == 1i16 << b);
    lemma_pixel_bits(w, b, b);
    assert forall|x2: Word, y2: Word|
        on_screen(x2, y2) && (x2 != x || y2 != y) implies #[trigger] pixel_on(with_pixel(ram, x, y, value), x2, y2)
            == pixel_on(ram, x2, y2) by {
        let a2 = pixel_address(x2, y2);
        assert(trem16(x2 as int) == x2 % 16);
        if a2 == a {
            assert(y2 == y && x2 / 16 == x / 16);
            let b2 = (x2 % 16) as u16;
            assert(b2 != b);
            assert(pixel_mask(x2) == 1i16 << b2);
            lemma_pixel_bits(w, b, b2);
        }
    }
}

#[allow(clippy::upper_case_acronyms)]
#[derive(Clone, Debug, PartialEq, Eq)]
pub struct RAM {
    pub contents: Vec<Word>,
}

impl View for RAM {
    type V = Seq<Word>;

    open spec fn view(&self) -> Seq<Word> {
        self.contents@
    }
}

impl RAM {
    pub const SCREEN: Word = 16384;

    pub const KBD: Word = 24576;

    pub const SCREEN_ROW_LENGTH: Word = 32;

    /// A RAM of `MEM_SIZE` words holds all addresses a word can name.
    pub open spec fn wf(&self) -> bool {
        self@.len() == MEM_SIZE
    }

    /// A RAM of `MEM_SIZE` zero words.
    pub fn zeroed() -> (r: RAM)
        ensures
            r@ == Seq::new(MEM_SIZE as nat, |i: int| 0 as Word),
    {
        let contents: Vec<Word> = vec![0; MEM_SIZE];
        proof {
            assert(contents@ =~= Seq::new(MEM_SIZE as nat, |i: int| 0 as Word));
        }
        RAM { contents }
    }

    /// The word at `address`.
    pub fn read(&self, address: Word) -> (r: Word)
        requires
            self.wf(),
            0 <= address,
        ensures
            r == self@[address as int],
    {
        self.contents[address as usize]
    }

    /// Writes `value` at `address`.
    pub fn write(&mut self, address: Word, value: Word)
        requires
            old(self).wf(),
            0 <= address,
        ensures
            final(self)@ == old(self)@.update(address as int, value),
    {
        self.contents.set(address as usize, value);
    }

    pub fn get_pixel(&self, x: Word, y: Word) -> (r: bool)
        requires
            self.wf(),
            pixel_addressable(x, y),
        ensures
            r == pixel_on(self@, x, y),
    {
        let address = Self::SCREEN + y * Self::SCREEN_ROW_LENGTH + x / 16;
        let bit = x % 16;
        (self.contents[address as usize] & (1i16 << bit)) != 0
    }

    pub fn set_pixel(&mut self, x: Word, y: Word, value: bool)
        requires
            old(self).wf(),
            pixel_addressable(x, y),
        ensures
            final(self)@ == with_pixel(old(self)@, x, y, value),
            on_screen(x, y) ==> pixel_on(final(self)@, x, y) == value,
    {
        proof {
            if on_screen(x, y) {
                lemma_set_pixel_reads_back(self@, x, y, value);
            }
        }
        let address = Self::SCREEN + y * Self::SCREEN_ROW_LENGTH + x / 16;
        let bit = x % 16;
        let old_word = self.contents[address as usize];
        if value {
            self.contents.set(address as usize, old_word | (1i16 << bit));
        } else {
            self.contents.set(address as usize, old_word & !(1i16 << bit));
        }
    }

    pub fn set_keyboard(&mut self, value: Word)
        requires
            old(self).wf(),
        ensures
            final(self)@ == old(self)@.update(24576, value),
    {
        self.contents.set(24576, value);
    }
}


#[derive(Clone, Copy, PartialEq, Eq, Debug, Structural)]
pub enum BreakpointVar {
    A,
    D,
    M,
    PC,
    Mem(Word),
}

#[derive(Clone, Copy, PartialEq, Eq, Debug, Structural)]
pub struct Breakpoint {
    pub var: BreakpointVar,
    pub value: Word,
}

/// The state of the Hack computer as a mathematical value.
pub struct HackState {
    pub a: Word,
    pub d: Word,
    pub pc: Word,
    pub rom: Seq<Instruction>,
    pub ram: Seq<Word>,
    pub breakpoints: Seq<Breakpoint>,
}

/// ROM and RAM both hold `MEM_SIZE` words.
pub open spec fn machine_wf(s: HackState) -> bool {
    s.rom.len() == MEM_SIZE && s.ram.len() == MEM_SIZE
}

/// The word of the instruction at PC.
pub open spec fn current_bits(s: HackState) -> UWord {
    s.rom[s.pc as int].bits()
}

/// The ALU output of the C-instruction at PC.
pub open spec fn alu_output(s: HackState) -> Word {
    let raw = current_bits(s);
    let y = if flag(raw, 12) { s.ram[s.a as int] } else { s.a };
    alu(s.d, y, raw)
}

/// Whether the C-instruction at PC jumps.
pub open spec fn jumps(s: HackState) -> bool {
    jump_holds(jump_of_code(current_bits(s) & 7), alu_output(s))
}

/// Whether the instruction at PC can execute: PC names a ROM word, A names a RAM word
/// wherever M is read or written, and PC + 1 is a word wherever it is taken.
pub open spec fn can_execute(s: HackState) -> bool {
    &&& machine_wf(s)
    &&& 0 <= s.pc
    &&& if !is_c_instruction(current_bits(s)) {
        s.pc < i16::MAX
    } else {
        &&& flag(current_bits(s), 12) ==> s.a >= 0
        &&& flag(current_bits(s), 3) ==> s.a >= 0
        &&& !jumps(s) ==> s.pc < i16::MAX
    }
}

/// The state after executing the instruction at PC. An A-instruction loads its word into
/// A; a C-instruction computes with the ALU, jumps to A (the A before the instruction)
/// when its condition holds of the output, and stores the output into M (at the old A),
/// A and D as its destination bits say.
pub open spec fn execute(s: HackState) -> HackState {
    let raw = current_bits(s);
    if !is_c_instruction(raw) {
        HackState { a: raw as Word, pc: (s.pc + 1) as Word, ..s }
    } else {
        let out = alu_output(s);
        HackState {
            a: if flag(raw, 5) { out } else { s.a },
            d: if flag(raw, 4) { out } else { s.d },
            pc: if jumps(s) { s.a } else { (s.pc + 1) as Word },
            rom: s.rom,
            ram: if flag(raw, 3) { s.ram.update(s.a as int, out) } else { s.ram },
            breakpoints: s.breakpoints,
        }
    }
}

/// The value a breakpoint watches, or `None` where reading it would index RAM at a
/// negative address.
pub open spec fn var_value(s: HackState, var: BreakpointVar) -> Option<Word> {
    match var {
        BreakpointVar::A => Some(s.a),
        BreakpointVar::D => Some(s.d),
        BreakpointVar::PC => Some(s.pc),
        BreakpointVar::M => if s.a >= 0 { Some(s.ram[s.a as int]) } else { None },
        BreakpointVar::Mem(address) => if address >= 0 { Some(s.ram[address as int]) } else { None },
    }
}

/// Checks the breakpoints from index `i` on, in order, until one is hit: `Some(true)` when
/// one is hit, `Some(false)` when none is, `None` when one is read that cannot be read.
pub open spec fn breakpoint_scan(s: HackState, i: int) -> Option<bool>
    decreases s.breakpoints.len() - i,
{
    if i < 0 || i >= s.breakpoints.len() {
        Some(false)
    } else {
        match var_value(s, s.breakpoints[i].var) {
            None => None,
            Some(v) => if v == s.breakpoints[i].value {
                Some(true)
            } else {
                breakpoint_scan(s, i + 1)
            },
        }
    }
}

/// One step: the next state and whether a breakpoint is hit in it; `None` where the
/// step cannot be taken.
pub open spec fn step_result(s: HackState) -> Option<(HackState, bool)> {
    if can_execute(s) {
        match breakpoint_scan(execute(s), 0) {
            Some(hit) => Some((execute(s), hit)),
            None => None,
        }
    } else {
        None
    }
}

/// Up to `n` steps, stopping after the first step that hits a breakpoint.
pub open spec fn run_result(s: HackState, n: nat) -> Option<(HackState, bool)>
    decreases n,
{
    if n == 0 {
        Some((s, false))
    } else {
        match step_result(s) {
            None => None,
            Some((t, hit)) => if hit {
                Some((t, true))
            } else {
                run_result(t, (n - 1) as nat)
            },
        }
    }
}

/// Whether the program is still running: PC lies before the last instruction of a program
/// of `program_length` instructions.
pub open spec fn in_program(s: HackState, program_length: int) -> bool {
    0 <= s.pc && s.pc < program_length - 1
}

/// Steps until PC leaves the program, with at most `n` steps; breakpoints are checked but
/// do not stop it.
pub open spec fn run_until_exit(s: HackState, program_length: int, n: nat) -> Option<HackState>
    decreases n,
{
    if !in_program(s, program_length) {
        Some(s)
    } else if n == 0 {
        None
    } else {
        match step_result(s) {
            None => None,
            Some((t, _)) => run_until_exit(t, program_length, (n - 1) as nat),
        }
    }
}

/// The zero instruction, which fills unused ROM.
pub closed spec fn zero_instruction() -> Instruction {
    Instruction { raw: 0 }
}

/// The empty ROM word is the instruction word 0.
pub proof fn lemma_zero_instruction_bits()
    ensures
        zero_instruction().bits() == 0,
{
}

#[derive(Clone, PartialEq, Eq, Debug)]
pub struct Hardware {
    pub a: Word,
    pub d: Word,
    pub pc: Word,
    pub rom: Vec<Instruction>,
    pub ram: RAM,
    pub breakpoints: Vec<Breakpoint>,
}

impl View for Hardware {
    type V = HackState;

    open spec fn view(&self) -> HackState {
        HackState {
            a: self.a,
            d: self.d,
            pc: self.pc,
            rom: self.rom@,
            ram: self.ram@,
            breakpoints: self.breakpoints@,
        }
    }
}

impl Default for Hardware {
    fn default() -> (h: Self)
        ensures
            h.a == 0,
            h.d == 0,
            h.pc == 0,
            h.rom@ == Seq::new(MEM_SIZE as nat, |i: int| zero_instruction()),
            h.ram@ == Seq::new(MEM_SIZE as nat, |i: int| 0 as Word),
            h.breakpoints@.len() == 0,
    {
        let mut rom: Vec<Instruction> = Vec::new();
        for i in 0..MEM_SIZE
            invariant
                rom@ == Seq::new(i as nat, |j: int| zero_instruction()),
        {
            rom.push(Instruction { raw: 0 });
            assert(rom@ =~= Seq::new((i + 1) as nat, |j: int| zero_instruction()));
        }
        Hardware { a: 0, d: 0, pc: 0, rom, ram: RAM::zeroed(), breakpoints: Vec::new() }
    }
}

impl Hardware {
    fn m(&self) -> (r: Word)
        requires
            self.ram.wf(),
            self.a >= 0,
        ensures
            r == self.ram@[self.a as int],
    {
        self.ram.read(self.a)
    }

    fn current_instruction(&self) -> (r: Instruction)
        requires
            self.rom@.len() == MEM_SIZE,
            self.pc >= 0,
        ensures
            r == self.rom@[self.pc as int],
    {
        self.rom[self.pc as usize]
    }

    fn set(&mut self, instruction: Instruction, value: Word)
        requires
            old(self).ram.wf(),
            flag(instruction.raw, 3) ==> old(self).a >= 0,
        ensures
            final(self).ram@ == if flag(instruction.raw, 3) {
                old(self).ram@.update(old(self).a as int, value)
            } else {
                old(self).ram@
            },
            final(self).a == if flag(instruction.raw, 5) { value } else { old(self).a },
            final(self).d == if flag(instruction.raw, 4) { value } else { old(self).d },
            final(self).pc == old(self).pc,
            final(self).rom == old(self).rom,
            final(self).breakpoints == old(self).breakpoints,
    {
        if instruction.dst_has_m() {
            let a = self.a;
            self.ram.write(a, value);
        }
        if instruction.dst_has_a() {
            self.a = value;
        }
        if instruction.dst_has_d() {
            self.d = value;
        }
    }

    fn y_register_value(&self, y_register: YRegister) -> (r: Word)
        requires
            self.ram.wf(),
            y_register is M ==> self.a >= 0,
        ensures
            r == if y_register is M { self.ram@[self.a as int] } else { self.a },
    {
        match y_register {
            YRegister::A => self.a,
            YRegister::M => self.m(),
        }
    }

    fn compute(&self, instruction: Instruction) -> (r: Word)
        requires
            self.ram.wf(),
            flag(instruction.raw, 12) ==> self.a >= 0,
        ensures
            r == alu(
                self.d,
                if flag(instruction.raw, 12) { self.ram@[self.a as int] } else { self.a },
                instruction.raw,
            ),
    {
        let mut x = self.d;
        let mut y = self.y_register_value(instruction.y_register());
        if instruction.zero_x() {
            x = 0;
        }
        if instruction.negate_x() {
            x = !x;
        }
        if instruction.zero_y() {
            y = 0;
        }
        if instruction.negate_y() {
            y = !y;
        }

        let computation_result = match instruction.operator() {
            Operator::And => x & y,
            Operator::Add => x.wrapping_add(y),
        };

        if instruction.negate_out() {
            !computation_result
        } else {
            computation_result
        }
    }

    pub fn get_breakpoint_var(&self, breakpoint_var: &BreakpointVar) -> (r: Word)
        requires
            self.ram.wf(),
            var_value(self@, *breakpoint_var) is Some,
        ensures
            var_value(self@, *breakpoint_var) == Some(r),
    {
        match breakpoint_var {
            BreakpointVar::A => self.a,
            BreakpointVar::D => self.d,
            BreakpointVar::M => self.ram.read(self.a),
            BreakpointVar::PC => self.pc,
            BreakpointVar::Mem(address) => self.ram.read(*address),
        }
    }

    /// Runs up to `step_count` steps; returns whether it stopped at a breakpoint.
    pub fn run(&mut self, step_count: u64) -> (hit: bool)
        requires
            run_result(old(self)@, step_count as nat) is Some,
        ensures
            run_result(old(self)@, step_count as nat) == Some((final(self)@, hit)),
    {
        let mut i: u64 = 0;
        while i < step_count
            invariant
                i <= step_count,
                run_result(old(self)@, step_count as nat) == run_result(
                    self@,
                    (step_count - i) as nat,
                ),
                run_result(self@, (step_count - i) as nat) is Some,
            decreases step_count - i,
        {
            if self.step() {
                return true;
            }
            i = i + 1;
        }
        false
    }

    /// Whether one step can be taken: the instruction at PC can execute, and the
    /// breakpoints checked after it can be read up to the first one that is hit.
    pub fn ready_to_step(&self) -> (r: bool)
        ensures
            r == (step_result(self@) is Some),
    {
        if self.rom.len() != MEM_SIZE || self.ram.contents.len() != MEM_SIZE || self.pc < 0 {
            return false;
        }
        let instruction = self.current_instruction();
        let ghost next = execute(self@);
        let mut a = self.a;
        let mut d = self.d;
        let pc;
        let mut written = false;
        let mut out: Word = 0;
        if !instruction.flag(15) {
            if self.pc == i16::MAX {
                return false;
            }
            a = instruction.loaded_value();
            pc = self.pc + 1;
        } else {
            if (instruction.flag(12) || instruction.flag(3)) && self.a < 0 {
                return false;
            }
            out = self.compute(instruction);
            let jump = instruction.jump_condition().is_true(out);
            if !jump && self.pc == i16::MAX {
                return false;
            }
            pc = if jump { self.a } else { self.pc + 1 };
            if instruction.dst_has_a() {
                a = out;
            }
            if instruction.dst_has_d() {
                d = out;
            }
            written = instruction.dst_has_m();
        }
        assert(can_execute(self@));
        assert(next.a == a && next.d == d && next.pc == pc);
        assert(next.ram == if written { self.ram@.update(self.a as int, out) } else { self.ram@ });
        let mut i: usize = 0;
        while i < self.breakpoints.len()
            invariant
                self.ram.wf(),
                next == execute(self@),
                next.a == a && next.d == d && next.pc == pc,
                next.ram == if written { self.ram@.update(self.a as int, out) } else { self.ram@ },
                written ==> self.a >= 0,
                next.breakpoints == self.breakpoints@,
                can_execute(self@),
                0 <= i <= self.breakpoints@.len(),
                breakpoint_scan(next, 0) == breakpoint_scan(next, i as int),
            decreases self.breakpoints@.len() - i,
        {
            let breakpoint = self.breakpoints[i];
            let address = match breakpoint.var {
                BreakpointVar::A => None,
                BreakpointVar::D => None,
                BreakpointVar::PC => None,
                BreakpointVar::M => Some(a),
                BreakpointVar::Mem(x) => Some(x),
            };
            let value = match breakpoint.var {
                BreakpointVar::A => a,
                BreakpointVar::D => d,
                BreakpointVar::PC => pc,
                _ => {
                    let x = address.unwrap();
                    if x < 0 {
                        return false;
                    }
                    if written && x == self.a {
                        out
                    } else {
                        self.ram.read(x)
                    }
                },
            };
            assert(var_value(next, breakpoint.var) == Some(value));
            if value == breakpoint.value {
                assert(breakpoint_scan(next, i as int) == Some(true));
                return true;
            }
            i = i + 1;
        }
        true
    }

    /// Executes one instruction; returns whether a breakpoint is hit afterwards.
    pub fn step(&mut self) -> (hit: bool)
        requires
            step_result(old(self)@) is Some,
        ensures
            step_result(old(self)@) == Some((final(self)@, hit)),
    {
        let instruction = self.current_instruction();
        match instruction.instruction_type() {
            InstructionType::A => {
                self.a = instruction.loaded_value();
                self.pc = self.pc + 1;
            }
            InstructionType::C => {
                let result = self.compute(instruction);
                self.pc = if instruction.jump_condition().is_true(result) {
                    self.a
                } else {
                    self.pc + 1
                };
                self.set(instruction, result);
            }
        }
        assert(self@ == execute(old(self)@));

        let mut i: usize = 0;
        while i < self.breakpoints.len()
            invariant
                self@ == execute(old(self)@),
                can_execute(old(self)@),
                machine_wf(self@),
                0 <= i <= self.breakpoints@.len(),
                breakpoint_scan(self@, 0) == breakpoint_scan(self@, i as int),
                breakpoint_scan(self@, 0) is Some,
            decreases self.breakpoints@.len() - i,
        {
            let breakpoint = self.breakpoints[i];
            if self.get_breakpoint_var(&breakpoint.var) == breakpoint.value {
                assert(breakpoint_scan(self@, i as int) == Some(true));
                return true;
            }
            i = i + 1;
        }
        false
    }

    /// Replaces the ROM with `program`, followed by zero instructions.
    pub fn load_program(&mut self, program: &[Instruction])
        requires
            old(self).rom@.len() == MEM_SIZE,
            program@.len() <= MEM_SIZE,
        ensures
            final(self)@ == (HackState {
                rom: program@ + Seq::new(
                    (MEM_SIZE - program@.len()) as nat,
                    |i: int| zero_instruction(),
                ),
                ..old(self)@
            }),
    {
        let mut i: usize = 0;
        while i < MEM_SIZE
            invariant
                self.rom@.len() == MEM_SIZE,
                i <= MEM_SIZE,
                forall|j: int| 0 <= j < i ==> self.rom@[j] == zero_instruction(),
                self@ == (HackState { rom: self@.rom, ..old(self)@ }),
            decreases MEM_SIZE - i,
        {
            self.rom.set(i, Instruction { raw: 0 });
            i = i + 1;
        }
        let mut k: usize = 0;
        while k < program.len()
            invariant
                self.rom@.len() == MEM_SIZE,
                k <= program@.len() <= MEM_SIZE,
                forall|j: int| 0 <= j < k ==> self.rom@[j] == program@[j],
                forall|j: int| k <= j < MEM_SIZE ==> self.rom@[j] == zero_instruction(),
                self@ == (HackState { rom: self@.rom, ..old(self)@ }),
            decreases program@.len() - k,
        {
            self.rom.set(k, program[k]);
            k = k + 1;
        }
        assert(self.rom@ =~= program@ + Seq::new(
            (MEM_SIZE - program@.len()) as nat,
            |i: int| zero_instruction(),
        ));
    }

    /// Steps until PC reaches the last instruction of a program of `program_length`
    /// instructions (or leaves the program).
    pub fn run_program(&mut self, program_length: usize)
        requires
            program_length >= 1,
            exists|n: nat| run_until_exit(old(self)@, program_length as int, n) is Some,
        ensures
            exists|n: nat| run_until_exit(old(self)@, program_length as int, n) == Some(final(self)@),
    {
        let ghost fuel: nat = choose|n: nat| run_until_exit(old(self)@, program_length as int, n) is Some;
        let ghost mut left: nat = fuel;
        let ghost mut used: nat = 0;
        while self.pc >= 0 && (self.pc as usize) < program_length - 1
            invariant
                program_length >= 1,
                run_until_exit(self@, program_length as int, left) is Some,
                run_until_exit(old(self)@, program_length as int, fuel)
                    == run_until_exit(self@, program_length as int, left),
            decreases left,
        {
            self.step();
            proof {
                left = (left - 1) as nat;
            }
        }
    }

    /// Back to the start state: registers and RAM zero; ROM and breakpoints kept.
    pub fn reset(&mut self)
        ensures
            final(self).a == 0,
            final(self).d == 0,
            final(self).pc == 0,
            final(self).rom@ == old(self).rom@,
            final(self).breakpoints@ == old(self).breakpoints@,
            final(self).ram@ == Seq::new(MEM_SIZE as nat, |i: int| 0 as Word),
    {
        self.a = 0;
        self.d = 0;
        self.pc = 0;
        self.ram = RAM::zeroed();
    }

    pub fn get_breakpoints(&self) -> (r: &Vec<Breakpoint>)
        ensures
            r@ == self.breakpoints@,
    {
        &self.breakpoints
    }

    pub fn add_breakpoint(&mut self, breakpoint: &Breakpoint)
        ensures
            final(self)@ == (HackState {
                breakpoints: old(self)@.breakpoints.push(*breakpoint),
                ..old(self)@
            }),
    {
        self.breakpoints.push(*breakpoint);
    }

    pub fn remove_breakpoint(&mut self, index: usize)
        requires
            index < old(self).breakpoints@.len(),
        ensures
            final(self)@ == (HackState {
                breakpoints: old(self)@.breakpoints.remove(index as int),
                ..old(self)@
            }),
    {
        self.breakpoints.remove(index);
    }
}


/// The assembly mnemonic of the computation bits (bits 6 to 14) of a C-instruction.
pub open spec fn comp_mnemonic(c: u16) -> Seq<char> {
    if c == 0x01AA { "0"@ }
    else if c == 0x01BF { "1"@ }
    else if c == 0x01BA { "-1"@ }
    else if c == 0x018C { "D"@ }
    else if c == 0x01B0 { "A"@ }
    else if c == 0x01F0 { "M"@ }
    else if c == 0x018D { "!D"@ }
    else if c == 0x01B1 { "!A"@ }
    else if c == 0x01F1 { "!M"@ }
    else if c == 0x018F { "-D"@ }
    else if c == 0x01B3 { "-A"@ }
    else if c == 0x01F3 { "-M"@ }
    else if c == 0x019F { "D+1"@ }
    else if c == 0x01B7 { "A+1"@ }
    else if c == 0x01F7 { "M+1"@ }
    else if c == 0x018E { "D-1"@ }
    else if c == 0x01B2 { "A-1"@ }
    else if c == 0x01F2 { "M-1"@ }
    else if c == 0x0182 { "A+D"@ }
    else if c == 0x01C2 { "D+M"@ }
    else if c == 0x0193 { "D-A"@ }
    else if c == 0x0187 { "A-D"@ }
    else if c == 0x01D3 { "D-M"@ }
    else if c == 0x01C7 { "M-D"@ }
    else if c == 0x0180 { "A&D"@ }
    else if c == 0x01C0 { "D&M"@ }
    else if c == 0x0195 { "A|D"@ }
    else if c == 0x01D5 { "D|M"@ }
    else { "???"@ }
}

/// The assembly text of the destination bits.
pub open spec fn dest_text(d: u16) -> Seq<char> {
    if d == 0 { ""@ }
    else if d == 1 { "M="@ }
    else if d == 2 { "D="@ }
    else if d == 3 { "MD="@ }
    else if d == 4 { "A="@ }
    else if d == 5 { "AM="@ }
    else if d == 6 { "AD="@ }
    else { "AMD="@ }
}

/// The assembly text of the jump bits.
pub open spec fn jump_text(j: u16) -> Seq<char> {
    if j == 0 { ""@ }
    else if j == 1 { ";JGT"@ }
    else if j == 2 { ";JEQ"@ }
    else if j == 3 { ";JGE"@ }
    else if j == 4 { ";JLT"@ }
    else if j == 5 { ";JNE"@ }
    else if j == 6 { ";JLE"@ }
    else { ";JMP"@ }
}

/// The assembly text of an instruction word: `@value` for an A-instruction,
/// `dest=comp;jump` for a C-instruction.
pub open spec fn instruction_text(raw: u16) -> Seq<char> {
    if !is_c_instruction(raw) {
        seq!['@'] + nat_digits(raw as nat)
    } else {
        dest_text((raw >> 3u16) & 7) + comp_mnemonic((raw >> 6u16) & 0x01FF) + jump_text(raw & 7)
    }
}

fn comp_str(c: u16) -> (r: &'static str)
    ensures
        r@ == comp_mnemonic(c),
{
    if c == 0x01AA { "0" }
    else if c == 0x01BF { "1" }
    else if c == 0x01BA { "-1" }
    else if c == 0x018C { "D" }
    else if c == 0x01B0 { "A" }
    else if c == 0x01F0 { "M" }
    else if c == 0x018D { "!D" }
    else if c == 0x01B1 { "!A" }
    else if c == 0x01F1 { "!M" }
    else if c == 0x018F { "-D" }
    else if c == 0x01B3 { "-A" }
    else if c == 0x01F3 { "-M" }
    else if c == 0x019F { "D+1" }
    else if c == 0x01B7 { "A+1" }
    else if c == 0x01F7 { "M+1" }
    else if c == 0x018E { "D-1" }
    else if c == 0x01B2 { "A-1" }
    else if c == 0x01F2 { "M-1" }
    else if c == 0x0182 { "A+D" }
    else if c == 0x01C2 { "D+M" }
    else if c == 0x0193 { "D-A" }
    else if c == 0x0187 { "A-D" }
    else if c == 0x01D3 { "D-M" }
    else if c == 0x01C7 { "M-D" }
    else if c == 0x0180 { "A&D" }
    else if c == 0x01C0 { "D&M" }
    else if c == 0x0195 { "A|D" }
    else if c == 0x01D5 { "D|M" }
    else { "???" }
}

fn dest_str(d: u16) -> (r: &'static str)
    ensures
        r@ == dest_text(d),
{
    if d == 0 { "" }
    else if d == 1 { "M=" }
    else if d == 2 { "D=" }
    else if d == 3 { "MD=" }
    else if d == 4 { "A=" }
    else if d == 5 { "AM=" }
    else if d == 6 { "AD=" }
    else { "AMD=" }
}

fn jump_str(j: u16) -> (r: &'static str)
    ensures
        r@ == jump_text(j),
{
    if j == 0 { "" }
    else if j == 1 { ";JGT" }
    else if j == 2 { ";JEQ" }
    else if j == 3 { ";JGE" }
    else if j == 4 { ";JLT" }
    else if j == 5 { ";JNE" }
    else if j == 6 { ";JLE" }
    else { ";JMP" }
}

impl Instruction {
    /// The assembly text of the instruction.
    pub fn to_string(&self) -> (s: String)
        ensures
            s@ == instruction_text(self.bits()),
    {
        let raw = self.raw;
        if raw & 0x8000u16 == 0 {
            assert(raw & 0x8000u16 == 0 <==> !(raw & (1u16 << 15u32) != 0)) by (bit_vector);
            let mut cs: Vec<char> = Vec::new();
            cs.push('@');
            let mut ds = digits_of(raw as u32);
            cs.append(&mut ds);
            string_from_chars(cs.as_slice())
        } else {
            assert(raw & 0x8000u16 == 0 <==> !(raw & (1u16 << 15u32) != 0)) by (bit_vector);
            let mut s = String::new();
            push_str(&mut s, dest_str((raw >> 3u16) & 7));
            push_str(&mut s, comp_str((raw >> 6u16) & 0x01FF));
            push_str(&mut s, jump_str(raw & 7));
            s
        }
    }
}

/// The name under which a breakpoint variable is shown.
pub open spec fn var_text(v: BreakpointVar) -> Seq<char> {
    match v {
        BreakpointVar::A => "A"@,
        BreakpointVar::D => "D"@,
        BreakpointVar::M => "M"@,
        BreakpointVar::PC => "PC"@,
        BreakpointVar::Mem(address) => "RAM["@ + int_text(address as int) + "]"@,
    }
}

impl BreakpointVar {
    /// The name under which the variable is shown, such as `PC` or `RAM[12]`.
    pub fn to_string(&self) -> (s: String)
        ensures
            s@ == var_text(*self),
    {
        let mut s = String::new();
        match self {
            BreakpointVar::A => push_str(&mut s, "A"),
            BreakpointVar::D => push_str(&mut s, "D"),
            BreakpointVar::M => push_str(&mut s, "M"),
            BreakpointVar::PC => push_str(&mut s, "PC"),
            BreakpointVar::Mem(address) => {
                push_str(&mut s, "RAM[");
                let n = int_to_string(*address as i32);
                push_str(&mut s, n.as_str());
                push_str(&mut s, "]");
            },
        }
        s
    }
}


/// The value of the binary digits `s[i..j]`.
pub open spec fn binary_value(s: Seq<char>, i: int, j: int) -> int
    decreases j - i,
{
    if j <= i {
        0
    } else {
        binary_value(s, i, j - 1) * 2 + (if s[j - 1] == '1' { 1int } else { 0int })
    }
}

/// The word written in binary on the line `s[i..e]`: surrounding whitespace, an optional
/// '+' and at least one binary digit, with a value below 2^16.
pub open spec fn binary_word(s: Seq<char>, i: int, e: int) -> Option<UWord> {
    let a = run_end(s, i, e, CharClass::Whitespace);
    let b = trim_back(s, a, e);
    if a >= b {
        None
    } else {
        let d0 = if s[a] == '+' { a + 1 } else { a };
        if d0 >= b || run_end(s, d0, b, CharClass::Binary) != b {
            None
        } else if binary_value(s, d0, b) <= 0xFFFF {
            Some(binary_value(s, d0, b) as UWord)
        } else {
            None
        }
    }
}

/// The words of the lines from `i` on of a text of binary instruction words, one per line;
/// a line ends at '\n' (with a '\r' before it dropped) and no line follows a final '\n'.
pub open spec fn hack_words_from(s: Seq<char>, i: int) -> Option<Seq<UWord>>
    decreases s.len() - i,
{
    if i < 0 || i >= s.len() {
        Some(Seq::empty())
    } else {
        let e = run_end(s, i, s.len() as int, CharClass::NotNewline);
        let le = if e < s.len() && e > i && s[e - 1] == '\r' { e - 1 } else { e };
        match binary_word(s, i, le) {
            None => None,
            Some(w) => if e < i || e >= s.len() {
                Some(seq![w])
            } else {
                match hack_words_from(s, e + 1) {
                    None => None,
                    Some(r) => Some(seq![w] + r),
                }
            },
        }
    }
}

/// The instruction words of a text of binary words, one per line; `None` where a line is
/// not such a word.
pub open spec fn hack_words(s: Seq<char>) -> Option<Seq<UWord>> {
    hack_words_from(s, 0)
}

fn binary_word_exec(cs: &Vec<char>, i: usize, e: usize) -> (r: Option<UWord>)
    requires
        i <= e <= cs@.len(),
    ensures
        r == binary_word(cs@, i as int, e as int),
{
    let a = scan(cs, i, e, CharClass::Whitespace);
    let b = trim_back_exec(cs, a, e);
    if a >= b {
        return None;
    }
    let d0 = if cs[a] == '+' { a + 1 } else { a };
    if d0 >= b || scan(cs, d0, b, CharClass::Binary) != b {
        return None;
    }
    proof {
        lemma_run_end(cs@, d0 as int, b as int, CharClass::Binary);
    }
    let mut v: u32 = 0;
    let mut big = false;
    let mut k = d0;
    while k < b
        invariant
            d0 <= k <= b <= cs@.len(),
            forall|x: int| d0 <= x < b ==> in_binary(#[trigger] cs@[x]),
            big ==> binary_value(cs@, d0 as int, k as int) > 0xFFFF,
            !big ==> v == binary_value(cs@, d0 as int, k as int) && v <= 0xFFFF,
        decreases b - k,
    {
        let bit: u32 = if cs[k] == '1' { 1 } else { 0 };
        if !big {
            let nv = v * 2 + bit;
            if nv > 0xFFFF {
                big = true;
            } else {
                v = nv;
            }
        }
        k = k + 1;
    }
    if big {
        None
    } else {
        Some(v as u16)
    }
}

spec fn in_binary(c: char) -> bool {
    c == '0' || c == '1'
}

/// The instruction words of a text of binary words, one per line (as `str::lines`,
/// `str::trim` and `u16::from_str_radix(.., 2)` read them); `None` where a line is not such
/// a word.
pub fn hack_file_words(contents: &str) -> (r: Option<Vec<UWord>>)
    ensures
        r matches Some(v) ==> hack_words(contents@) == Some(v@),
        r is None ==> hack_words(contents@) is None,
{
    let cs = str_chars(contents);
    let n = cs.len();
    let mut out: Vec<UWord> = Vec::new();
    let mut i: usize = 0;
    while i < n
        invariant
            cs@ == contents@,
            n == cs@.len(),
            i <= n,
            hack_words(cs@) == match hack_words_from(cs@, i as int) {
                Some(r) => Some(out@ + r),
                None => None,
            },
        decreases n - i,
    {
        let e = scan(&cs, i, n, CharClass::NotNewline);
        let le = if e < n && e > i && cs[e - 1] == '\r' { e - 1 } else { e };
        match binary_word_exec(&cs, i, le) {
            None => {
                return None;
            },
            Some(w) => {
                let ghost before = out@;
                out.push(w);
                proof {
                    match hack_words_from(cs@, e + 1) {
                        Some(r) => {
                            assert(before + (seq![w] + r) =~= out@ + r);
                        },
                        None => {},
                    }
                    if e >= n {
                        assert(before + seq![w] =~= out@);
                        assert(out@ + Seq::<UWord>::empty() =~= out@);
                    }
                }
                if e >= n {
                    i = n;
                    proof {
                        assert(hack_words_from(cs@, i as int) == Some(Seq::<UWord>::empty()));
                    }
                } else {
                    i = e + 1;
                }
            },
        }
    }
    proof {
        assert(out@ + Seq::<UWord>::empty() =~= out@);
    }
    Some(out)
}

impl Hardware {
    /// A computer whose ROM holds the given words, followed by zero words; registers, RAM
    /// and breakpoints start empty.
    fn with_program_words(words: &Vec<UWord>) -> (h: Hardware)
        requires
            words@.len() <= MEM_SIZE,
        ensures
            h.a == 0,
            h.d == 0,
            h.pc == 0,
            crate::hardware_parse::instruction_bits(h.rom@) == words@ + Seq::new(
                (MEM_SIZE - words@.len()) as nat,
                |i: int| 0 as UWord,
            ),
            h.rom@.len() == MEM_SIZE,
            h.ram@ == Seq::new(MEM_SIZE as nat, |i: int| 0 as Word),
            h.breakpoints@.len() == 0,
    {
        let mut instance = Hardware::default();
        let mut k: usize = 0;
        while k < words.len()
            invariant
                instance.a == 0,
                instance.d == 0,
                instance.pc == 0,
                instance.rom@.len() == MEM_SIZE,
                instance.ram@ == Seq::new(MEM_SIZE as nat, |i: int| 0 as Word),
                instance.breakpoints@.len() == 0,
                k <= words@.len() <= MEM_SIZE,
                forall|j: int| 0 <= j < k ==> (#[trigger] instance.rom@[j]).bits() == words@[j],
                forall|j: int| k <= j < MEM_SIZE ==> (#[trigger] instance.rom@[j]) == zero_instruction(),
            decreases words@.len() - k,
        {
            instance.rom.set(k, Instruction { raw: words[k] });
            k = k + 1;
        }
        assert(crate::hardware_parse::instruction_bits(instance.rom@) =~= words@ + Seq::new(
            (MEM_SIZE - words@.len()) as nat,
            |i: int| 0 as UWord,
        ));
        instance
    }

    /// A computer running the assembled program of an assembly text.
    pub fn from_file_contents(contents: &str) -> (h: Self)
        requires
            parse_program(contents@) matches Some(items) && assemble_spec(items) matches Some(w)
                && w.len() <= MEM_SIZE,
        ensures
            h.a == 0,
            h.d == 0,
            h.pc == 0,
            instruction_bits(h.rom@) == assemble_spec(parse_program(contents@).unwrap()).unwrap()
                + Seq::new(
                (MEM_SIZE - assemble_spec(parse_program(contents@).unwrap()).unwrap().len()) as nat,
                |i: int| 0 as UWord,
            ),
            h.ram@ == Seq::new(MEM_SIZE as nat, |i: int| 0 as Word),
            h.breakpoints@.len() == 0,
    {
        match assemble_hack_file(contents) {
            Ok((_, instructions)) => {
                let mut words: Vec<UWord> = Vec::new();
                let mut k: usize = 0;
                while k < instructions.len()
                    invariant
                        k <= instructions@.len(),
                        words@ == instruction_bits(instructions@).subrange(0, k as int),
                    decreases instructions@.len() - k,
                {
                    words.push(instructions[k].raw);
                    assert(instruction_bits(instructions@).subrange(0, k + 1)
                        == instruction_bits(instructions@).subrange(0, k as int).push(instructions@[k as int].bits()));
                    k = k + 1;
                }
                assert(instruction_bits(instructions@).subrange(0, instructions@.len() as int)
                    == instruction_bits(instructions@));
                Self::with_program_words(&words)
            },
            Err(_) => {
                proof {
                    assert(false);
                }
                Hardware::default()
            },
        }
    }

    /// A computer running the program of a text of binary instruction words.
    pub fn from_hack_file_contents(contents: &str) -> (h: Self)
        requires
            hack_words(contents@) matches Some(w) && w.len() <= MEM_SIZE,
        ensures
            h.a == 0,
            h.d == 0,
            h.pc == 0,
            instruction_bits(h.rom@) == hack_words(contents@).unwrap() + Seq::new(
                (MEM_SIZE - hack_words(contents@).unwrap().len()) as nat,
                |i: int| 0 as UWord,
            ),
            h.ram@ == Seq::new(MEM_SIZE as nat, |i: int| 0 as Word),
            h.breakpoints@.len() == 0,
    {
        match hack_file_words(contents) {
            Some(words) => Self::with_program_words(&words),
            None => {
                proof {
                    assert(false);
                }
                Hardware::default()
            },
        }
    }
}


/// Decoding undoes encoding: a created C-instruction is a C-instruction whose destination
/// bits, jump bits and jump condition are the ones it was created with, and whose ALU
/// control bits (6 to 12) are those of the computation value.
pub proof fn lemma_create_decodes(
    dst: DestinationRegisters,
    calculation_value: UWord,
    jump: JumpCondition,
)
    ensures
        is_c_instruction(c_instruction_bits(dst, calculation_value, jump)),
        (c_instruction_bits(dst, calculation_value, jump) >> 3u16) & 7 == dst_code(dst),
        c_instruction_bits(dst, calculation_value, jump) & 7 == jump_code(jump),
        jump_of_code(c_instruction_bits(dst, calculation_value, jump) & 7) == jump,
        (c_instruction_bits(dst, calculation_value, jump) >> 6u16) & 0x7F == calculation_value & 0x7F,
{
    let dc = dst_code(dst);
    let jc = jump_code(jump);
    let b = c_instruction_bits(dst, calculation_value, jump);
    assert(dc < 8 && jc < 8);
    assert(b == 0x8000u16 | (calculation_value << 6u16) | (dc << 3u16) | jc);
    assert(dc < 8 && jc < 8 ==> {
        let b = 0x8000u16 | (calculation_value << 6u16) | (dc << 3u16) | jc;
        &&& b & (1u16 << 15u32) != 0
        &&& (b >> 3u16) & 7 == dc
        &&& b & 7 == jc
        &&& (b >> 6u16) & 0x7F == calculation_value & 0x7F
    }) by (bit_vector);
}

/// Running `m` steps that hit no breakpoint and then `n` more is running `m + n` steps.
pub proof fn lemma_run_split(s: HackState, m: nat, n: nat)
    requires
        run_result(s, m) matches Some((t, hit)) && !hit,
    ensures
        run_result(s, m + n) == run_result(run_result(s, m).unwrap().0, n),
    decreases m,
{
    if m > 0 {
        let (t, hit) = step_result(s).unwrap();
        assert(!hit);
        lemma_run_split(t, (m - 1) as nat, n);
        assert((m + n - 1) as nat == ((m - 1) as nat + n) as nat);
    }
}

/// One step is a run of one step.
pub proof fn lemma_step_is_run_one(s: HackState)
    ensures
        run_result(s, 1) == step_result(s),
{
    assert(run_result(s, 1) == match step_result(s) {
        None => None,
        Some((t, hit)) => if hit { Some((t, true)) } else { run_result(t, 0) },
    });
}

/// The state after `k` steps taken one after another, whether or not a breakpoint is hit;
/// `None` where a step cannot be taken.
pub open spec fn steps_state(s: HackState, k: nat) -> Option<HackState>
    decreases k,
{
    if k == 0 {
        Some(s)
    } else {
        match step_result(s) {
            None => None,
            Some((t, _)) => steps_state(t, (k - 1) as nat),
        }
    }
}

/// Whether the `k`-th step (counting from 1) taken one after another hits a breakpoint.
pub open spec fn step_hits(s: HackState, k: nat) -> bool
    decreases k,
{
    if k == 0 {
        false
    } else {
        match step_result(s) {
            None => false,
            Some((t, hit)) => if k == 1 {
                hit
            } else {
                step_hits(t, (k - 1) as nat)
            },
        }
    }
}

/// A run of up to `n` steps takes the steps one after another and stops after the first
/// one that hits a breakpoint: it reports a hit exactly when one of the first `n` steps
/// hits, and then ends in the state after the first such step, else in the state after
/// `n` steps; a run of no steps reports no hit and changes nothing.
pub proof fn lemma_run_stops_at_first_hit(s: HackState, n: nat)
    requires
        run_result(s, n) is Some,
    ensures
        run_result(s, 0) == Some((s, false)),
        run_result(s, n).unwrap().1 == exists|k: nat| 1 <= k <= n && #[trigger] step_hits(s, k),
        run_result(s, n).unwrap().1 ==> exists|m: nat|
            1 <= m <= n && #[trigger] step_hits(s, m) && (forall|k: nat| 1 <= k < m ==> !#[trigger] step_hits(s, k))
                && steps_state(s, m) == Some(run_result(s, n).unwrap().0),
        !run_result(s, n).unwrap().1 ==> steps_state(s, n) == Some(run_result(s, n).unwrap().0),
    decreases n,
{
    if n > 0 {
        let (t, h) = step_result(s).unwrap();
        assert(step_hits(s, 1) == h);
        assert(steps_state(t, 0) == Some(t));
        assert(steps_state(s, 1) == steps_state(t, 0));
        if h {
            assert(run_result(s, n) == Some((t, true)));
            assert(1 <= 1 <= n && step_hits(s, 1));
            assert forall|k: nat| 1 <= k < 1 implies !#[trigger] step_hits(s, k) by {}
        } else {
            lemma_run_stops_at_first_hit(t, (n - 1) as nat);
            assert(run_result(s, n) == run_result(t, (n - 1) as nat));
            assert forall|k: nat| 2 <= k implies #[trigger] step_hits(s, k) == step_hits(t, (k - 1) as nat) && steps_state(s, k)
                == steps_state(t, (k - 1) as nat) by {}
            if exists|k: nat| 1 <= k <= n && #[trigger] step_hits(s, k) {
                let k = choose|k: nat| 1 <= k <= n && #[trigger] step_hits(s, k);
                assert(k != 1);
                assert(step_hits(t, (k - 1) as nat));
            }
            if exists|k: nat| 1 <= k <= n - 1 && #[trigger] step_hits(t, k) {
                let k = choose|k: nat| 1 <= k <= n - 1 && #[trigger] step_hits(t, k);
                assert(step_hits(s, k + 1));
            }
            if run_result(s, n).unwrap().1 {
                let m = choose|m: nat|
                    1 <= m <= n - 1 && #[trigger] step_hits(t, m) && (forall|k: nat| 1 <= k < m ==> !#[trigger] step_hits(t, k))
                        && steps_state(t, m) == Some(run_result(t, (n - 1) as nat).unwrap().0);
                assert(step_hits(s, m + 1));
                assert(steps_state(s, m + 1) == steps_state(t, m));
                assert forall|k: nat| 1 <= k < m + 1 implies !#[trigger] step_hits(s, k) by {
                    if k >= 2 {
                        assert(step_hits(s, k) == step_hits(t, (k - 1) as nat));
                    }
                }
            } else {
                assert(steps_state(s, n) == steps_state(t, (n - 1) as nat));
            }
        }
    }
}

/// The three low bits of each number below 8.
proof fn lemma_three_bits()
    by (bit_vector)
    ensures
        (0u16 & 4u16 != 0) == false && (0u16 & 2u16 != 0) == false && (0u16 & 1u16 != 0) == false,
        (1u16 & 4u16 != 0) == false && (1u16 & 2u16 != 0) == false && (1u16 & 1u16 != 0) == true,
        (2u16 & 4u16 != 0) == false && (2u16 & 2u16 != 0) == true && (2u16 & 1u16 != 0) == false,
        (3u16 & 4u16 != 0) == false && (3u16 & 2u16 != 0) == true && (3u16 & 1u16 != 0) == true,
        (4u16 & 4u16 != 0) == true && (4u16 & 2u16 != 0) == false && (4u16 & 1u16 != 0) == false,
        (5u16 & 4u16 != 0) == true && (5u16 & 2u16 != 0) == false && (5u16 & 1u16 != 0) == true,
        (6u16 & 4u16 != 0) == true && (6u16 & 2u16 != 0) == true && (6u16 & 1u16 != 0) == false,
        (7u16 & 4u16 != 0) == true && (7u16 & 2u16 != 0) == true && (7u16 & 1u16 != 0) == true,
{
}

/// Whether jump bits `bits` jump on `v`, as the Hack machine defines them: the high bit on
/// a negative value, the middle bit on zero, the low bit on a positive value.
pub open spec fn jump_bits_hold(bits: u16, v: Word) -> bool {
    (bits & 4u16 != 0 && v < 0) || (bits & 2u16 != 0 && v == 0) || (bits & 1u16 != 0 && v > 0)
}

/// The jump conditions are encoded and decoded as the Hack machine's jump bits: a
/// condition holds of a value exactly where its bits say, and so does the condition that
/// any three bits decode to.
pub proof fn lemma_jump_bits(j: JumpCondition, bits: u16, v: Word)
    requires
        bits < 8,
    ensures
        jump_holds(j, v) == jump_bits_hold(jump_code(j), v),
        jump_holds(jump_of_code(bits), v) == jump_bits_hold(bits, v),
{
    lemma_three_bits();
}

} // verus!

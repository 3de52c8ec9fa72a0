use vstd::prelude::*;
use vstd::wrapping::i16_specs;

use crate::hardware::{Word, MEM_SIZE, RAM};
use crate::maps::{count_entries, index_entries, CallCounts, IndexMap};
use crate::os::{in_word, os_call, os_default, run_wf, OsState, OS};
use crate::text::{digit_char, int_text, int_to_string, nat_digits, push_str, str_chars};
use crate::scan::string_of_range;
use crate::vm_parse::{commands, parse_commands};

verus! {

#[derive(Clone, Copy, Debug, PartialEq, Eq, Structural)]
pub enum PushSegment {
    Constant,
    Static,
    Local,
    Argument,
    This,
    That,
    Temp,
    Pointer,
}

#[derive(Clone, Copy, Debug, PartialEq, Eq, Structural)]
pub enum PopSegment {
    Static,
    Local,
    Argument,
    This,
    That,
    Temp,
    Pointer,
}

#[derive(Clone, Debug, PartialEq, Eq)]
pub enum VMCommand {
    Add,
    Push { segment: PushSegment, offset: Word },
    Pop { segment: PopSegment, offset: Word },
    Sub,
    Neg,
    Eq,
    Gt,
    Lt,
    And,
    Or,
    Not,
    Label { name: String },
    Goto { label_name: String },
    IfGoto { label_name: String },
    Function { name: String, local_var_count: Word },
    Call { function_name: String, argument_count: Word },
    Return,
}

/// A VM command as a mathematical value.
pub enum Command {
    Add,
    Push(PushSegment, Word),
    Pop(PopSegment, Word),
    Sub,
    Neg,
    Eq,
    Gt,
    Lt,
    And,
    Or,
    Not,
    Label(Seq<char>),
    Goto(Seq<char>),
    IfGoto(Seq<char>),
    Function(Seq<char>, Word),
    Call(Seq<char>, Word),
    Return,
}

impl View for VMCommand {
    type V = Command;

    open spec fn view(&self) -> Command {
        match self {
            VMCommand::Add => Command::Add,
            VMCommand::Push { segment, offset } => Command::Push(*segment, *offset),
            VMCommand::Pop { segment, offset } => Command::Pop(*segment, *offset),
            VMCommand::Sub => Command::Sub,
            VMCommand::Neg => Command::Neg,
            VMCommand::Eq => Command::Eq,
            VMCommand::Gt => Command::Gt,
            VMCommand::Lt => Command::Lt,
            VMCommand::And => Command::And,
            VMCommand::Or => Command::Or,
            VMCommand::Not => Command::Not,
            VMCommand::Label { name } => Command::Label(name@),
            VMCommand::Goto { label_name } => Command::Goto(label_name@),
            VMCommand::IfGoto { label_name } => Command::IfGoto(label_name@),
            VMCommand::Function { name, local_var_count } => Command::Function(name@, *local_var_count),
            VMCommand::Call { function_name, argument_count } => Command::Call(
                function_name@,
                *argument_count,
            ),
            VMCommand::Return => Command::Return,
        }
    }
}

/// The name of a segment that can be pushed from.
pub open spec fn push_segment_text(segment: PushSegment) -> Seq<char> {
    match segment {
        PushSegment::Constant => "constant"@,
        PushSegment::Static => "static"@,
        PushSegment::Local => "local"@,
        PushSegment::Argument => "argument"@,
        PushSegment::This => "this"@,
        PushSegment::That => "that"@,
        PushSegment::Temp => "temp"@,
        PushSegment::Pointer => "pointer"@,
    }
}

/// The name of a segment that can be popped into.
pub open spec fn pop_segment_text(segment: PopSegment) -> Seq<char> {
    match segment {
        PopSegment::Static => "static"@,
        PopSegment::Local => "local"@,
        PopSegment::Argument => "argument"@,
        PopSegment::This => "this"@,
        PopSegment::That => "that"@,
        PopSegment::Temp => "temp"@,
        PopSegment::Pointer => "pointer"@,
    }
}

/// A command as it is written in a VM file.
pub open spec fn command_text(c: Command) -> Seq<char> {
    match c {
        Command::Add => "add"@,
        Command::Push(segment, offset) => "push "@ + push_segment_text(segment) + " "@ + int_text(offset as int),
        Command::Pop(segment, offset) => "pop "@ + pop_segment_text(segment) + " "@ + int_text(offset as int),
        Command::Sub => "sub"@,
        Command::Neg => "neg"@,
        Command::Eq => "eq"@,
        Command::Gt => "gt"@,
        Command::Lt => "lt"@,
        Command::And => "and"@,
        Command::Or => "or"@,
        Command::Not => "not"@,
        Command::Label(name) => "label "@ + name,
        Command::Goto(label) => "goto "@ + label,
        Command::IfGoto(label) => "if-goto "@ + label,
        Command::Function(name, count) => "function "@ + name + " "@ + int_text(count as int),
        Command::Call(name, count) => "call "@ + name + " "@ + int_text(count as int),
        Command::Return => "return"@,
    }
}

/// A `String` holding `t`.
fn owned(t: &str) -> (s: String)
    ensures
        s@ == t@,
{
    let mut s = String::new();
    push_str(&mut s, t);
    assert(s@ =~= t@);
    s
}

impl PushSegment {
    /// The segment's name, as a VM file writes it.
    pub fn to_string(&self) -> (s: String)
        ensures
            s@ == push_segment_text(*self),
    {
        match self {
            PushSegment::Constant => owned("constant"),
            PushSegment::Static => owned("static"),
            PushSegment::Local => owned("local"),
            PushSegment::Argument => owned("argument"),
            PushSegment::This => owned("this"),
            PushSegment::That => owned("that"),
            PushSegment::Temp => owned("temp"),
            PushSegment::Pointer => owned("pointer"),
        }
    }
}

impl PopSegment {
    /// The segment's name, as a VM file writes it.
    pub fn to_string(&self) -> (s: String)
        ensures
            s@ == pop_segment_text(*self),
    {
        match self {
            PopSegment::Static => owned("static"),
            PopSegment::Local => owned("local"),
            PopSegment::Argument => owned("argument"),
            PopSegment::This => owned("this"),
            PopSegment::That => owned("that"),
            PopSegment::Temp => owned("temp"),
            PopSegment::Pointer => owned("pointer"),
        }
    }
}

/// `keyword`, a space, `name`, a space and the decimal `count`.
fn command_with_count(keyword: &str, name: &str, count: Word) -> (s: String)
    ensures
        s@ == keyword@ + name@ + " "@ + int_text(count as int),
{
    let mut s = owned(keyword);
    push_str(&mut s, name);
    push_str(&mut s, " ");
    let n = int_to_string(count as i32);
    push_str(&mut s, n.as_str());
    s
}

/// The values of a sequence of commands.
pub open spec fn commands_of(v: Seq<VMCommand>) -> Seq<Command> {
    v.map_values(|c: VMCommand| c@)
}

impl VMCommand {
    /// The command as a VM file writes it, such as `push constant 7` or `call Main.f 2`.
    pub fn to_string(&self) -> (s: String)
        ensures
            s@ == command_text(self@),
    {
        match self {
            VMCommand::Add => owned("add"),
            VMCommand::Push { segment, offset } => {
                let seg = segment.to_string();
                command_with_count("push ", seg.as_str(), *offset)
            },
            VMCommand::Pop { segment, offset } => {
                let seg = segment.to_string();
                command_with_count("pop ", seg.as_str(), *offset)
            },
            VMCommand::Sub => owned("sub"),
            VMCommand::Neg => owned("neg"),
            VMCommand::Eq => owned("eq"),
            VMCommand::Gt => owned("gt"),
            VMCommand::Lt => owned("lt"),
            VMCommand::And => owned("and"),
            VMCommand::Or => owned("or"),
            VMCommand::Not => owned("not"),
            VMCommand::Label { name } => {
                let mut s = owned("label ");
                push_str(&mut s, name.as_str());
                s
            },
            VMCommand::Goto { label_name } => {
                let mut s = owned("goto ");
                push_str(&mut s, label_name.as_str());
                s
            },
            VMCommand::IfGoto { label_name } => {
                let mut s = owned("if-goto ");
                push_str(&mut s, label_name.as_str());
                s
            },
            VMCommand::Function { name, local_var_count } => command_with_count(
                "function ",
                name.as_str(),
                *local_var_count,
            ),
            VMCommand::Call { function_name, argument_count } => command_with_count(
                "call ",
                function_name.as_str(),
                *argument_count,
            ),
            VMCommand::Return => owned("return"),
        }
    }
}

impl VMCommand {
    /// A copy of the command.
    pub fn duplicate(&self) -> (r: VMCommand)
        ensures
            r@ == self@,
    {
        match self {
            VMCommand::Add => VMCommand::Add,
            VMCommand::Push { segment, offset } => VMCommand::Push { segment: *segment, offset: *offset },
            VMCommand::Pop { segment, offset } => VMCommand::Pop { segment: *segment, offset: *offset },
            VMCommand::Sub => VMCommand::Sub,
            VMCommand::Neg => VMCommand::Neg,
            VMCommand::Eq => VMCommand::Eq,
            VMCommand::Gt => VMCommand::Gt,
            VMCommand::Lt => VMCommand::Lt,
            VMCommand::And => VMCommand::And,
            VMCommand::Or => VMCommand::Or,
            VMCommand::Not => VMCommand::Not,
            VMCommand::Label { name } => VMCommand::Label { name: name.clone() },
            VMCommand::Goto { label_name } => VMCommand::Goto { label_name: label_name.clone() },
            VMCommand::IfGoto { label_name } => VMCommand::IfGoto { label_name: label_name.clone() },
            VMCommand::Function { name, local_var_count } => VMCommand::Function {
                name: name.clone(),
                local_var_count: *local_var_count,
            },
            VMCommand::Call { function_name, argument_count } => VMCommand::Call {
                function_name: function_name.clone(),
                argument_count: *argument_count,
            },
            VMCommand::Return => VMCommand::Return,
        }
    }
}

#[allow(clippy::upper_case_acronyms)]
pub enum Register {
    SP,
    LCL,
    ARG,
    THIS,
    THAT,
    TEMP(Word),
}

/// The RAM address of a register; `TEMP(i)` is at 5 + i.
pub open spec fn register_address(r: Register) -> int {
    match r {
        Register::SP => 0,
        Register::LCL => 1,
        Register::ARG => 2,
        Register::THIS => 3,
        Register::THAT => 4,
        Register::TEMP(offset) => 5 + offset,
    }
}

impl Register {
    pub fn address(&self) -> (r: Word)
        requires
            self matches Register::TEMP(offset) ==> offset <= i16::MAX - 5,
        ensures
            r == register_address(*self),
    {
        match self {
            Register::SP => 0,
            Register::LCL => 1,
            Register::ARG => 2,
            Register::THIS => 3,
            Register::THAT => 4,
            Register::TEMP(offset) => 5 + *offset,
        }
    }
}

/// The stack pointer of a RAM.
pub open spec fn sp(ram: Seq<Word>) -> Word {
    ram[0]
}

/// Whether a word is a RAM address.
pub open spec fn addressable(v: int) -> bool {
    0 <= v <= i16::MAX
}

/// The address of `base + offset`, if the sum is a word that is not negative.
pub open spec fn offset_address(base: int, offset: int) -> Option<Word> {
    if addressable(base + offset) { Some((base + offset) as Word) } else { None }
}

/// The address that a pop into a segment writes, if it can be computed.
pub open spec fn pop_address(ram: Seq<Word>, static_segment: Word, segment: PopSegment, offset: Word) -> Option<Word> {
    match segment {
        PopSegment::Static => offset_address(static_segment as int, offset as int),
        PopSegment::Local => offset_address(ram[1] as int, offset as int),
        PopSegment::Argument => offset_address(ram[2] as int, offset as int),
        PopSegment::This => offset_address(ram[3] as int, offset as int),
        PopSegment::That => offset_address(ram[4] as int, offset as int),
        PopSegment::Temp => offset_address(5, offset as int),
        PopSegment::Pointer => offset_address(3, offset as int),
    }
}

/// The value that a push from a segment reads, if it can be read.
pub open spec fn push_value(ram: Seq<Word>, static_segment: Word, segment: PushSegment, offset: Word) -> Option<Word> {
    let at = |base: int| match offset_address(base, offset as int) {
        Some(a) => Some(ram[a as int]),
        None => None,
    };
    match segment {
        PushSegment::Constant => Some(offset),
        PushSegment::Static => at(static_segment as int),
        PushSegment::Local => at(ram[1] as int),
        PushSegment::Argument => at(ram[2] as int),
        PushSegment::This => at(ram[3] as int),
        PushSegment::That => at(ram[4] as int),
        PushSegment::Temp => at(5),
        PushSegment::Pointer => at(3),
    }
}

/// The RAM after pushing `value`: it is written at SP, then the word at address 0 (SP,
/// unless SP was 0) grows by one; `None` where SP is negative or the sum leaves the word
/// range.
pub open spec fn push_ram(ram: Seq<Word>, value: Word) -> Option<Seq<Word>> {
    if 0 <= sp(ram) {
        let r1 = ram.update(sp(ram) as int, value);
        if r1[0] < i16::MAX {
            Some(r1.update(0, (r1[0] + 1) as Word))
        } else {
            None
        }
    } else {
        None
    }
}

/// The RAM after popping and the value popped: SP shrinks by one and the word at the new
/// SP is read; `None` where the new SP would be negative.
pub open spec fn pop_ram(ram: Seq<Word>) -> Option<(Seq<Word>, Word)> {
    if 1 <= sp(ram) {
        let r1 = ram.update(0, (sp(ram) - 1) as Word);
        Some((r1, r1[sp(ram) - 1]))
    } else {
        None
    }
}

/// The RAM of the VM at start: all zero but SP, which is 256.
pub open spec fn vm_initial_ram() -> Seq<Word> {
    Seq::new(MEM_SIZE as nat, |i: int| if i == 0 { 256 as Word } else { 0 as Word })
}

impl RAM {
    pub fn new() -> (r: RAM)
        ensures
            r@ == vm_initial_ram(),
    {
        let mut instance = RAM::zeroed();
        instance.write(0, 256);
        assert(instance@ =~= vm_initial_ram());
        instance
    }

    pub fn push(&mut self, value: Word)
        requires
            old(self).wf(),
            push_ram(old(self)@, value) is Some,
        ensures
            Some(final(self)@) == push_ram(old(self)@, value),
    {
        let sp = self.read(0);
        self.write(sp, value);
        let sp2 = self.read(0);
        self.write(0, sp2 + 1);
    }

    pub fn pop(&mut self) -> (r: Word)
        requires
            old(self).wf(),
            pop_ram(old(self)@) is Some,
        ensures
            Some((final(self)@, r)) == pop_ram(old(self)@),
    {
        let sp = self.read(0);
        self.write(0, sp - 1);
        self.read(sp - 1)
    }

    /// The word below SP.
    pub fn stack_top(&self) -> (r: Word)
        requires
            self.wf(),
            1 <= sp(self@),
        ensures
            r == self@[sp(self@) - 1],
    {
        let sp = self.read(0);
        self.read(sp - 1)
    }

    /// Replaces the word below SP.
    pub fn set_stack_top(&mut self, value: Word)
        requires
            old(self).wf(),
            1 <= sp(old(self)@),
        ensures
            final(self)@ == old(self)@.update(sp(old(self)@) - 1, value),
    {
        let sp = self.read(0);
        self.write(sp - 1, value);
    }

    /// Writes `value` into a segment.
    pub fn set(&mut self, static_segment: Word, segment: PopSegment, offset: Word, value: Word)
        requires
            old(self).wf(),
            pop_address(old(self)@, static_segment, segment, offset) is Some,
        ensures
            final(self)@ == old(self)@.update(
                pop_address(old(self)@, static_segment, segment, offset).unwrap() as int,
                value,
            ),
    {
        match segment {
            PopSegment::Static => {
                self.write(static_segment + offset, value);
            },
            PopSegment::Local => {
                let lcl = self.read(1);
                self.write(lcl + offset, value);
            },
            PopSegment::Argument => {
                let arg = self.read(2);
                self.write(arg + offset, value);
            },
            PopSegment::This => {
                let this = self.read(3);
                self.write(this + offset, value);
            },
            PopSegment::That => {
                let that = self.read(4);
                self.write(that + offset, value);
            },
            PopSegment::Temp => {
                self.write(Register::TEMP(offset).address(), value);
            },
            PopSegment::Pointer => {
                self.write(Register::THIS.address() + offset, value);
            },
        }
    }

    /// Reads a segment (a constant is its offset).
    pub fn get(&self, static_segment: Word, segment: PushSegment, offset: Word) -> (r: Word)
        requires
            self.wf(),
            push_value(self@, static_segment, segment, offset) is Some,
        ensures
            Some(r) == push_value(self@, static_segment, segment, offset),
    {
        match segment {
            PushSegment::Constant => offset,
            PushSegment::Static => self.read(static_segment + offset),
            PushSegment::Local => self.read(self.read(1) + offset),
            PushSegment::Argument => self.read(self.read(2) + offset),
            PushSegment::This => self.read(self.read(3) + offset),
            PushSegment::That => self.read(self.read(4) + offset),
            PushSegment::Temp => self.read(Register::TEMP(offset).address()),
            PushSegment::Pointer => self.read(Register::THIS.address() + offset),
        }
    }
}

impl Default for RAM {
    fn default() -> (r: Self)
        ensures
            r@ == vm_initial_ram(),
    {
        RAM::new()
    }
}


#[derive(Clone, Copy, Debug, PartialEq, Eq, Structural)]
pub struct Frame {
    pub function_index: usize,
}

pub struct FunctionMetadata {
    pub argument_count: Word,
    pub local_var_count: Word,
    pub command_index: usize,
    pub file_index: usize,
    pub label_name_to_command_index: IndexMap,
}

/// What is known of a function: its argument and local counts, where its code starts, its
/// file, and where each of its labels is.
pub struct FunctionSpec {
    pub argument_count: Word,
    pub local_var_count: Word,
    pub command_index: usize,
    pub file_index: usize,
    pub labels: Map<Seq<char>, usize>,
}

impl View for FunctionMetadata {
    type V = FunctionSpec;

    open spec fn view(&self) -> FunctionSpec {
        FunctionSpec {
            argument_count: self.argument_count,
            local_var_count: self.local_var_count,
            command_index: self.command_index,
            file_index: self.file_index,
            labels: index_entries(self.label_name_to_command_index),
        }
    }
}

impl Clone for FunctionMetadata {
    fn clone(&self) -> (r: Self)
        ensures
            r@ == self@,
    {
        FunctionMetadata {
            argument_count: self.argument_count,
            local_var_count: self.local_var_count,
            command_index: self.command_index,
            file_index: self.file_index,
            label_name_to_command_index: self.label_name_to_command_index.clone(),
        }
    }
}

/// The values of a sequence of function records.
pub open spec fn metadata_of(v: Seq<FunctionMetadata>) -> Seq<FunctionSpec> {
    v.map_values(|m: FunctionMetadata| m@)
}

/// An inclusive range of words.
#[derive(Clone, Copy, Debug, PartialEq, Eq, Structural)]
pub struct WordRange {
    pub first: Word,
    pub last: Word,
}

impl WordRange {
    pub fn start(&self) -> (r: Word)
        ensures
            r == self.first,
    {
        self.first
    }

    pub fn end(&self) -> (r: Word)
        ensures
            r == self.last,
    {
        self.last
    }
}

#[derive(Debug, PartialEq, Eq)]
pub struct File {
    pub name: String,
    pub starting_command_index: usize,
    pub command_count: usize,
    pub static_segment: WordRange,
}

/// A file of the program: its name, where its commands start, how many there are, and its
/// static segment.
pub struct FileSpec {
    pub name: Seq<char>,
    pub starting_command_index: usize,
    pub command_count: usize,
    pub static_start: Word,
    pub static_end: Word,
}

impl View for File {
    type V = FileSpec;

    open spec fn view(&self) -> FileSpec {
        FileSpec {
            name: self.name@,
            starting_command_index: self.starting_command_index,
            command_count: self.command_count,
            static_start: self.static_segment.first,
            static_end: self.static_segment.last,
        }
    }
}

/// The values of a sequence of files.
pub open spec fn files_of(v: Seq<File>) -> Seq<FileSpec> {
    v.map_values(|f: File| f@)
}

pub struct Program {
    pub all_commands: Vec<VMCommand>,
    pub function_name_to_index: IndexMap,
    pub function_metadata: Vec<FunctionMetadata>,
    pub file_name_to_index: IndexMap,
    pub files: Vec<File>,
}

/// A loaded program: all commands, the function index of each function name, the record
/// of each function, the index of each file name, and the files.
pub struct ProgramSpec {
    pub commands: Seq<Command>,
    pub functions: Map<Seq<char>, usize>,
    pub metadata: Seq<FunctionSpec>,
    pub file_names: Map<Seq<char>, usize>,
    pub files: Seq<FileSpec>,
}

impl View for Program {
    type V = ProgramSpec;

    open spec fn view(&self) -> ProgramSpec {
        ProgramSpec {
            commands: commands_of(self.all_commands@),
            functions: index_entries(self.function_name_to_index),
            metadata: metadata_of(self.function_metadata@),
            file_names: index_entries(self.file_name_to_index),
            files: files_of(self.files@),
        }
    }
}

/// The state of loading while the commands of a file are scanned.
pub struct LoadState {
    pub functions: Map<Seq<char>, usize>,
    pub metadata: Seq<FunctionSpec>,
    pub max_static: int,
}

/// Raises the argument count of the last function to cover `offset`; `None` where no
/// function has started.
pub open spec fn note_argument(st: LoadState, offset: Word) -> Option<LoadState> {
    if st.metadata.len() == 0 {
        None
    } else {
        let last = st.metadata.last();
        let count = if offset > last.argument_count { offset } else { last.argument_count };
        Some(LoadState {
            metadata: st.metadata.update(
                st.metadata.len() - 1,
                FunctionSpec { argument_count: count, ..last },
            ),
            ..st
        })
    }
}

/// Raises the highest static address to cover `offset`; `None` where the address is not a
/// word.
pub open spec fn note_static(st: LoadState, static_start: Word, offset: Word) -> Option<LoadState> {
    let a = static_start + offset;
    if a < i16::MIN || a > i16::MAX {
        None
    } else {
        Some(LoadState { max_static: if a > st.max_static { a } else { st.max_static }, ..st })
    }
}

/// What one command at global index `at` adds while its file is loaded: a function opens
/// a record, a label is placed in the last record, an argument access raises the last
/// record's argument count, a static access raises the highest static address.
pub open spec fn scan_command(c: Command, file_index: usize, static_start: Word, at: int, st: LoadState) -> Option<LoadState> {
    match c {
        Command::Label(name) => if st.metadata.len() == 0 {
            None
        } else {
            let last = st.metadata.last();
            Some(LoadState {
                metadata: st.metadata.update(
                    st.metadata.len() - 1,
                    FunctionSpec { labels: last.labels.insert(name, at as usize), ..last },
                ),
                ..st
            })
        },
        Command::Function(name, local_var_count) => Some(LoadState {
            functions: st.functions.insert(name, st.metadata.len() as usize),
            metadata: st.metadata.push(
                FunctionSpec {
                    argument_count: 0,
                    local_var_count,
                    command_index: at as usize,
                    file_index,
                    labels: Map::empty(),
                },
            ),
            ..st
        }),
        Command::Pop(PopSegment::Argument, offset) => note_argument(st, offset),
        Command::Push(PushSegment::Argument, offset) => note_argument(st, offset),
        Command::Push(PushSegment::Static, offset) => note_static(st, static_start, offset),
        Command::Pop(PopSegment::Static, offset) => note_static(st, static_start, offset),
        _ => Some(st),
    }
}

/// Scans the commands of a file from `k` on.
pub open spec fn scan_from(cmds: Seq<Command>, k: int, file_index: usize, static_start: Word, start: int, st: LoadState) -> Option<LoadState>
    decreases cmds.len() - k,
{
    if k < 0 || k >= cmds.len() {
        Some(st)
    } else {
        match scan_command(cmds[k], file_index, static_start, start + k, st) {
            None => None,
            Some(st2) => scan_from(cmds, k + 1, file_index, static_start, start, st2),
        }
    }
}

/// The program loaded so far.
pub struct LoadAcc {
    pub commands: Seq<Command>,
    pub functions: Map<Seq<char>, usize>,
    pub metadata: Seq<FunctionSpec>,
    pub file_names: Map<Seq<char>, usize>,
    pub files: Seq<FileSpec>,
    pub next_static: int,
}

/// Loads file `k`: its statics start after the previous file's, its commands follow the
/// previous ones, and its name is mapped to its index; `None` where scanning it fails,
/// its statics end past the words or the commands outgrow `usize`.
pub open spec fn load_file(name: Seq<char>, cmds: Seq<Command>, acc: LoadAcc) -> Option<LoadAcc> {
    let fi = acc.files.len() as usize;
    let start = acc.commands.len() as int;
    let st0 = LoadState { functions: acc.functions, metadata: acc.metadata, max_static: acc.next_static - 1 };
    if start + cmds.len() > usize::MAX {
        None
    } else {
        match scan_from(cmds, 0, fi, acc.next_static as Word, start, st0) {
            None => None,
            Some(st) => if st.max_static + 1 > i16::MAX {
                None
            } else {
                Some(
                    LoadAcc {
                        commands: acc.commands + cmds,
                        functions: st.functions,
                        metadata: st.metadata,
                        file_names: acc.file_names.insert(name, fi),
                        files: acc.files.push(
                            FileSpec {
                                name,
                                starting_command_index: start as usize,
                                command_count: cmds.len() as usize,
                                static_start: acc.next_static as Word,
                                static_end: st.max_static as Word,
                            },
                        ),
                        next_static: st.max_static + 1,
                    },
                )
            },
        }
    }
}

/// Loads the files from `k` on, one after another.
pub open spec fn load_from(fs: Seq<(Seq<char>, Seq<Command>)>, k: int, acc: LoadAcc) -> Option<LoadAcc>
    decreases fs.len() - k,
{
    if k < 0 || k >= fs.len() {
        Some(acc)
    } else {
        match load_file(fs[k].0, fs[k].1, acc) {
            None => None,
            Some(acc2) => load_from(fs, k + 1, acc2),
        }
    }
}

/// The program that files of commands load to; `None` where loading fails.
pub open spec fn load_program(fs: Seq<(Seq<char>, Seq<Command>)>) -> Option<ProgramSpec> {
    let empty = LoadAcc {
        commands: Seq::empty(),
        functions: Map::empty(),
        metadata: Seq::empty(),
        file_names: Map::empty(),
        files: Seq::empty(),
        next_static: 16,
    };
    match load_from(fs, 0, empty) {
        None => None,
        Some(acc) => Some(
            ProgramSpec {
                commands: acc.commands,
                functions: acc.functions,
                metadata: acc.metadata,
                file_names: acc.file_names,
                files: acc.files,
            },
        ),
    }
}

/// File `j` of a loaded program is the `j`-th of `fs`: it has that name, and its slice of
/// the program's commands is that file's commands.
pub open spec fn file_loaded(fs: Seq<(Seq<char>, Seq<Command>)>, files: Seq<FileSpec>, commands: Seq<Command>, j: int) -> bool {
    &&& files[j].name == fs[j].0
    &&& files[j].starting_command_index + files[j].command_count <= commands.len()
    &&& commands.subrange(
        files[j].starting_command_index as int,
        files[j].starting_command_index + files[j].command_count,
    ) == fs[j].1
}

proof fn lemma_load_from_files(fs: Seq<(Seq<char>, Seq<Command>)>, k: int, acc: LoadAcc)
    requires
        0 <= k <= fs.len(),
        acc.files.len() == k,
        forall|j: int| 0 <= j < k ==> #[trigger] file_loaded(fs, acc.files, acc.commands, j),
        load_from(fs, k, acc) is Some,
    ensures
        load_from(fs, k, acc).unwrap().files.len() == fs.len(),
        forall|j: int|
            0 <= j < fs.len() ==> #[trigger] file_loaded(
                fs,
                load_from(fs, k, acc).unwrap().files,
                load_from(fs, k, acc).unwrap().commands,
                j,
            ),
    decreases fs.len() - k,
{
    if k < fs.len() {
        let acc2 = load_file(fs[k].0, fs[k].1, acc).unwrap();
        assert(acc2.commands == acc.commands + fs[k].1);
        assert forall|j: int| 0 <= j < k + 1 implies #[trigger] file_loaded(fs, acc2.files, acc2.commands, j) by {
            if j < k {
                assert(file_loaded(fs, acc.files, acc.commands, j));
                assert(acc2.files[j] == acc.files[j]);
                let a = acc.files[j].starting_command_index as int;
                let b = acc.files[j].starting_command_index + acc.files[j].command_count;
                assert(acc2.commands.subrange(a, b) =~= acc.commands.subrange(a, b));
            } else {
                assert(acc2.commands.subrange(acc.commands.len() as int, acc2.commands.len() as int) =~= fs[k].1);
            }
        }
        lemma_load_from_files(fs, k + 1, acc2);
    }
}

/// Loading files keeps each file's commands: the loaded program has one file for each
/// file given, under its name, and that file's slice of the program's commands (from its
/// starting command, its command count long) is the file's commands, in order.
pub proof fn lemma_loaded_file_commands(fs: Seq<(Seq<char>, Seq<Command>)>, i: int)
    requires
        load_program(fs) is Some,
        0 <= i < fs.len(),
    ensures
        load_program(fs).unwrap().files.len() == fs.len(),
        file_loaded(fs, load_program(fs).unwrap().files, load_program(fs).unwrap().commands, i),
{
    let empty = LoadAcc {
        commands: Seq::empty(),
        functions: Map::empty(),
        metadata: Seq::empty(),
        file_names: Map::empty(),
        files: Seq::empty(),
        next_static: 16,
    };
    lemma_load_from_files(fs, 0, empty);
}

/// The files of a program as mathematical values.
pub open spec fn file_commands_of(v: Seq<(String, Vec<VMCommand>)>) -> Seq<(Seq<char>, Seq<Command>)> {
    v.map_values(|f: (String, Vec<VMCommand>)| (f.0@, commands_of(f.1@)))
}

impl File {
    fn new(
        name: &str,
        file_index: usize,
        commands: &[VMCommand],
        starting_command_index: usize,
        static_segment_start: Word,
        function_name_to_index: &mut IndexMap,
        function_metadata: &mut Vec<FunctionMetadata>,
    ) -> (r: Self)
        requires
            static_segment_start > i16::MIN,
            starting_command_index + commands@.len() <= usize::MAX,
            scan_from(
                commands_of(commands@),
                0,
                file_index,
                static_segment_start,
                starting_command_index as int,
                LoadState {
                    functions: index_entries(*old(function_name_to_index)),
                    metadata: metadata_of(old(function_metadata)@),
                    max_static: static_segment_start - 1,
                },
            ) is Some,
        ensures
            ({
                let st = scan_from(
                    commands_of(commands@),
                    0,
                    file_index,
                    static_segment_start,
                    starting_command_index as int,
                    LoadState {
                        functions: index_entries(*old(function_name_to_index)),
                        metadata: metadata_of(old(function_metadata)@),
                        max_static: static_segment_start - 1,
                    },
                ).unwrap();
                &&& r.static_segment.last as int == st.max_static
                &&& r.static_segment.last >= static_segment_start - 1
                &&& index_entries(*final(function_name_to_index)) == st.functions
                &&& metadata_of(final(function_metadata)@) == st.metadata
                &&& r@ == (FileSpec {
                    name: name@,
                    starting_command_index,
                    command_count: commands@.len() as usize,
                    static_start: static_segment_start,
                    static_end: st.max_static as Word,
                })
            }),
    {
        let ghost cmds = commands_of(commands@);
        let ghost st0 = LoadState {
            functions: index_entries(*function_name_to_index),
            metadata: metadata_of(function_metadata@),
            max_static: static_segment_start - 1,
        };
        let mut max_static_index: Word = static_segment_start - 1;
        let mut i: usize = 0;
        while i < commands.len()
            invariant
                cmds == commands_of(commands@),
                i <= commands@.len(),
                max_static_index >= static_segment_start - 1,
                starting_command_index + commands@.len() <= usize::MAX,
                scan_from(cmds, 0, file_index, static_segment_start, starting_command_index as int, st0)
                    == scan_from(
                    cmds,
                    i as int,
                    file_index,
                    static_segment_start,
                    starting_command_index as int,
                    LoadState {
                        functions: index_entries(*function_name_to_index),
                        metadata: metadata_of(function_metadata@),
                        max_static: max_static_index as int,
                    },
                ),
                scan_from(cmds, 0, file_index, static_segment_start, starting_command_index as int, st0) is Some,
            decreases commands@.len() - i,
        {
            let ghost st = LoadState {
                functions: index_entries(*function_name_to_index),
                metadata: metadata_of(function_metadata@),
                max_static: max_static_index as int,
            };
            let ghost next = scan_command(cmds[i as int], file_index, static_segment_start, starting_command_index + i, st);
            assert(next is Some);
            match &commands[i] {
                VMCommand::Label { name } => {
                    let mut last = function_metadata.pop().unwrap();
                    last.label_name_to_command_index.insert(name.as_str(), starting_command_index + i);
                    function_metadata.push(last);
                    proof {
                        assert(metadata_of(function_metadata@) =~= next.unwrap().metadata);
                    }
                },
                VMCommand::Function { name, local_var_count } => {
                    function_name_to_index.insert(name.as_str(), function_metadata.len());
                    let labels = IndexMap::new();
                    proof {
                        assert(index_entries(labels) =~= Map::<Seq<char>, usize>::empty());
                    }
                    function_metadata.push(
                        FunctionMetadata {
                            argument_count: 0,
                            local_var_count: *local_var_count,
                            command_index: starting_command_index + i,
                            file_index,
                            label_name_to_command_index: labels,
                        },
                    );
                    proof {
                        assert(metadata_of(function_metadata@) =~= next.unwrap().metadata);
                    }
                },
                VMCommand::Pop { segment: PopSegment::Argument, offset }
                | VMCommand::Push { segment: PushSegment::Argument, offset } => {
                    let mut last = function_metadata.pop().unwrap();
                    if *offset > last.argument_count {
                        last.argument_count = *offset;
                    }
                    function_metadata.push(last);
                    proof {
                        assert(metadata_of(function_metadata@) =~= next.unwrap().metadata);
                    }
                },
                VMCommand::Push { segment: PushSegment::Static, offset }
                | VMCommand::Pop { segment: PopSegment::Static, offset } => {
                    let a = static_segment_start + *offset;
                    if a > max_static_index {
                        max_static_index = a;
                    }
                },
                _ => {},
            }
            i = i + 1;
        }
        File {
            name: name.to_owned(),
            starting_command_index,
            command_count: commands.len(),
            static_segment: WordRange { first: static_segment_start, last: max_static_index },
        }
    }

    /// The commands of this file among all commands.
    pub fn commands<'a>(&self, all_commands: &'a [VMCommand]) -> (r: &'a [VMCommand])
        requires
            self.starting_command_index + self.command_count <= all_commands@.len(),
        ensures
            r@ == all_commands@.subrange(
                self.starting_command_index as int,
                self.starting_command_index + self.command_count,
            ),
    {
        let len = all_commands.len();
        &all_commands[self.starting_command_index..self.starting_command_index + self.command_count]
    }
}


#[derive(Clone, PartialEq, Eq, Debug)]
pub enum Breakpoint {
    SP(Word),
    CurrentFunction(String),
    Line { file_name: String, line_number: Word },
    RAM { address: Word, value: Word },
    LCL(Word),
    Local { offset: Word, value: Word },
    ARG(Word),
    Argument { offset: Word, value: Word },
    This(Word),
    ThisPointer { offset: Word, value: Word },
    That(Word),
    ThatPointer { offset: Word, value: Word },
    Temp { offset: Word, value: Word },
}

pub struct RunState {
    pub current_file_index: usize,
    pub current_command_index: usize,
    pub ram: RAM,
    pub os: OS,
    pub call_stack: Vec<Frame>,
    pub breakpoints: Vec<Breakpoint>,
    pub func_stats: CallCounts,
}

/// The state of a running VM as a mathematical value.
pub struct RunSpec {
    pub current_file_index: usize,
    pub current_command_index: usize,
    pub ram: Seq<Word>,
    pub os: OsState,
    pub call_stack: Seq<Frame>,
    pub breakpoints: Seq<Breakpoint>,
    pub func_stats: Map<Seq<char>, u64>,
}

impl RunState {
    /// Its RAM holds every address and its cursor is on the screen.
    pub open spec fn wf(&self) -> bool {
        run_wf(self@)
    }
}

impl View for RunState {
    type V = RunSpec;

    open spec fn view(&self) -> RunSpec {
        RunSpec {
            current_file_index: self.current_file_index,
            current_command_index: self.current_command_index,
            ram: self.ram@,
            os: self.os@,
            call_stack: self.call_stack@,
            breakpoints: self.breakpoints@,
            func_stats: count_entries(self.func_stats),
        }
    }
}

// ---------------------------------------------------------------- running

/// The RAM after a binary operation: the top word is popped and the new top becomes
/// `op(top, popped)`.
pub open spec fn binary_ram(ram: Seq<Word>, op: spec_fn(Word, Word) -> Word) -> Option<Seq<Word>> {
    match pop_ram(ram) {
        None => None,
        Some(p) => if sp(p.0) >= 1 {
            Some(p.0.update(sp(p.0) - 1, op(p.0[sp(p.0) - 1], p.1)))
        } else {
            None
        },
    }
}

/// The RAM after the top word becomes `op(top)`.
pub open spec fn unary_ram(ram: Seq<Word>, op: spec_fn(Word) -> Word) -> Option<Seq<Word>> {
    if sp(ram) >= 1 { Some(ram.update(sp(ram) - 1, op(ram[sp(ram) - 1]))) } else { None }
}

/// The VM's truth values: -1 for true, 0 for false.
pub open spec fn truth(b: bool) -> Word {
    if b { -1i16 } else { 0i16 }
}

/// The RAM after `k` zeros are pushed.
pub open spec fn push_zeros(ram: Seq<Word>, k: int) -> Option<Seq<Word>>
    decreases k,
{
    if k <= 0 {
        Some(ram)
    } else {
        match push_ram(ram, 0) {
            None => None,
            Some(r) => push_zeros(r, k - 1),
        }
    }
}

/// The RAM after a call pushes its frame: the return address, then LCL, ARG, THIS and
/// THAT, each read when it is pushed.
pub open spec fn push_frame(ram: Seq<Word>, ret: Word) -> Option<Seq<Word>> {
    match push_ram(ram, ret) {
        None => None,
        Some(r0) => match push_ram(r0, r0[1]) {
            None => None,
            Some(r1) => match push_ram(r1, r1[2]) {
                None => None,
                Some(r2) => match push_ram(r2, r2[3]) {
                    None => None,
                    Some(r3) => push_ram(r3, r3[4]),
                },
            },
        },
    }
}

/// The RAM after LCL, ARG, THIS and THAT are restored, in that order, from the four words
/// above `base`.
pub open spec fn restore_registers(ram: Seq<Word>, base: int) -> Seq<Word> {
    let r1 = ram.update(1, ram[base + 1]);
    let r2 = r1.update(2, r1[base + 2]);
    let r3 = r2.update(3, r2[base + 3]);
    r3.update(4, r3[base + 4])
}

/// Returning from the frame at `frame`: the return address is read below it, the return
/// value is popped into argument 0, SP is set just above it and the caller's registers are
/// restored. The RAM and the command index to go on at, if nothing fails.
pub open spec fn return_ram(ram: Seq<Word>, frame: Word, static_segment: Word) -> Option<(Seq<Word>, usize)> {
    if !in_word(frame - 5) || frame - 5 < 0 {
        None
    } else {
        let ret = ram[frame - 5] as usize;
        match pop_ram(ram) {
            None => None,
            Some(p) => match pop_address(p.0, static_segment, PopSegment::Argument, 0) {
                None => None,
                Some(a) => {
                    let r2 = p.0.update(a as int, p.1);
                    if !in_word(r2[2] + 1) {
                        None
                    } else {
                        Some((restore_registers(r2.update(0, (r2[2] + 1) as Word), frame - 5), ret))
                    }
                },
            },
        }
    }
}

/// The call counts after one more call of `name`; `None` where its count is at its limit.
pub open spec fn count_call(stats: Map<Seq<char>, u64>, name: Seq<char>) -> Option<Map<Seq<char>, u64>> {
    if stats.dom().contains(name) {
        if stats[name] == u64::MAX { None } else { Some(stats.insert(name, (stats[name] + 1) as u64)) }
    } else {
        Some(stats.insert(name, 1))
    }
}

/// The command index a jump to `label` goes to: the label's place in the function on top
/// of the call stack.
pub open spec fn jump_target(p: ProgramSpec, s: RunSpec, label: Seq<char>) -> Option<usize> {
    if s.call_stack.len() == 0 {
        None
    } else {
        let fi = s.call_stack.last().function_index;
        if fi >= p.metadata.len() || !p.metadata[fi as int].labels.dom().contains(label) {
            None
        } else {
            Some(p.metadata[fi as int].labels[label])
        }
    }
}

/// One command of the program run in state `s`; `None` where it fails.
pub open spec fn vm_step(p: ProgramSpec, s: RunSpec) -> Option<RunSpec> {
    let i = s.current_command_index;
    if i >= p.commands.len() || s.current_file_index >= p.files.len() {
        None
    } else {
        let static_segment = p.files[s.current_file_index as int].static_start;
        let next = (i + 1) as usize;
        let with_ram = |r: Option<Seq<Word>>| match r {
            None => None,
            Some(r) => Some(RunSpec { ram: r, current_command_index: next, ..s }),
        };
        match p.commands[i as int] {
            Command::Add => with_ram(binary_ram(s.ram, |x: Word, y: Word| i16_specs::wrapping_add(x, y))),
            Command::Sub => with_ram(binary_ram(s.ram, |x: Word, y: Word| i16_specs::wrapping_sub(x, y))),
            Command::Neg => with_ram(unary_ram(s.ram, |x: Word| i16_specs::wrapping_sub(0, x))),
            Command::Eq => with_ram(binary_ram(s.ram, |x: Word, y: Word| truth(x == y))),
            Command::Gt => with_ram(binary_ram(s.ram, |x: Word, y: Word| truth(x > y))),
            Command::Lt => with_ram(binary_ram(s.ram, |x: Word, y: Word| truth(x < y))),
            Command::And => with_ram(binary_ram(s.ram, |x: Word, y: Word| x & y)),
            Command::Or => with_ram(binary_ram(s.ram, |x: Word, y: Word| x | y)),
            Command::Not => with_ram(unary_ram(s.ram, |x: Word| x ^ -1i16)),
            Command::Push(segment, offset) => match push_value(s.ram, static_segment, segment, offset) {
                None => None,
                Some(v) => with_ram(push_ram(s.ram, v)),
            },
            Command::Pop(segment, offset) => match pop_ram(s.ram) {
                None => None,
                Some(q) => match pop_address(q.0, static_segment, segment, offset) {
                    None => None,
                    Some(a) => with_ram(Some(q.0.update(a as int, q.1))),
                },
            },
            Command::Label(_) => with_ram(Some(s.ram)),
            Command::Goto(label) => match jump_target(p, s, label) {
                None => None,
                Some(t) => Some(RunSpec { current_command_index: t, ..s }),
            },
            Command::IfGoto(label) => match pop_ram(s.ram) {
                None => None,
                Some(q) => if q.1 != 0 {
                    match jump_target(p, s, label) {
                        None => None,
                        Some(t) => Some(RunSpec { ram: q.0, current_command_index: t, ..s }),
                    }
                } else {
                    with_ram(Some(q.0))
                },
            },
            Command::Function(_, k) => with_ram(push_zeros(s.ram, k as int)),
            Command::Call(name, n) => match count_call(s.func_stats, name) {
                None => None,
                Some(stats) => if !in_word(s.ram[0] - n) {
                    None
                } else {
                    match push_frame(s.ram, next as Word) {
                        None => None,
                        Some(r) => {
                            let r2 = r.update(1, r[0]).update(2, (s.ram[0] - n) as Word);
                            match os_call(name, r2, s.os) {
                                None => None,
                                Some(Some(q)) => match return_ram(q.0, q.0[1], static_segment) {
                                    None => None,
                                    Some(t) => Some(
                                        RunSpec {
                                            current_command_index: t.1,
                                            ram: t.0,
                                            os: q.1,
                                            func_stats: stats,
                                            ..s
                                        },
                                    ),
                                },
                                Some(None) => if !p.functions.dom().contains(name) {
                                    None
                                } else {
                                    let fi = p.functions[name];
                                    if fi >= p.metadata.len() || p.metadata[fi as int].file_index >= p.files.len() {
                                        None
                                    } else {
                                        Some(
                                            RunSpec {
                                                current_command_index: p.metadata[fi as int].command_index,
                                                current_file_index: p.metadata[fi as int].file_index,
                                                ram: r2,
                                                call_stack: s.call_stack.push(Frame { function_index: fi }),
                                                func_stats: stats,
                                                ..s
                                            },
                                        )
                                    }
                                },
                            }
                        },
                    }
                },
            },
            Command::Return => match return_ram(s.ram, s.ram[1], static_segment) {
                None => None,
                Some(t) => {
                    let cs = if s.call_stack.len() > 0 { s.call_stack.drop_last() } else { s.call_stack };
                    if cs.len() == 0 || cs.last().function_index >= p.metadata.len()
                        || p.metadata[cs.last().function_index as int].file_index >= p.files.len() {
                        None
                    } else {
                        Some(
                            RunSpec {
                                current_command_index: t.1,
                                current_file_index: p.metadata[cs.last().function_index as int].file_index,
                                ram: t.0,
                                call_stack: cs,
                                ..s
                            },
                        )
                    }
                },
            },
        }
    }
}

/// `n` commands run one after another from state `s`.
pub open spec fn vm_steps(p: ProgramSpec, s: RunSpec, n: nat) -> Option<RunSpec>
    decreases n,
{
    if n == 0 {
        Some(s)
    } else {
        match vm_step(p, s) {
            None => None,
            Some(s2) => vm_steps(p, s2, (n - 1) as nat),
        }
    }
}

/// Running `n` commands from state `s`: the current file must be one of the program's.
pub open spec fn vm_run(p: ProgramSpec, s: RunSpec, n: nat) -> Option<RunSpec> {
    if s.current_file_index >= p.files.len() { None } else { vm_steps(p, s, n) }
}

/// Pushes `k` zeros.
fn push_zeros_exec(ram: &mut RAM, k: Word)
    requires
        old(ram).wf(),
        push_zeros(old(ram)@, k as int) is Some,
    ensures
        Some(final(ram)@) == push_zeros(old(ram)@, k as int),
        final(ram).wf(),
{
    let ghost goal = push_zeros(ram@, k as int);
    let mut j: Word = 0;
    while j < k
        invariant
            0 <= j,
            j <= k || k < 0,
            ram.wf(),
            goal is Some,
            push_zeros(ram@, k - j) == goal,
        decreases k - j,
    {
        ram.push(0);
        j = j + 1;
    }
}

/// Returns from the frame at `frame` (see `return_ram`) and gives the command index to go
/// on at.
fn return_from(ram: &mut RAM, frame: Word, static_segment: Word) -> (ret: usize)
    requires
        old(ram).wf(),
        return_ram(old(ram)@, frame, static_segment) is Some,
    ensures
        Some((final(ram)@, ret)) == return_ram(old(ram)@, frame, static_segment),
        final(ram).wf(),
{
    let ret = ram.read(frame - 5) as usize;
    let return_value = ram.pop();
    ram.set(static_segment, PopSegment::Argument, 0, return_value);
    let arg = ram.read(2);
    ram.write(0, arg + 1);
    let lcl = ram.read(frame - 5 + 1);
    ram.write(1, lcl);
    let arg = ram.read(frame - 5 + 2);
    ram.write(2, arg);
    let this = ram.read(frame - 5 + 3);
    ram.write(3, this);
    let that = ram.read(frame - 5 + 4);
    ram.write(4, that);
    ret
}

/// Pushes a call's frame: the return address, then LCL, ARG, THIS and THAT.
fn push_frame_exec(ram: &mut RAM, ret: Word)
    requires
        old(ram).wf(),
        push_frame(old(ram)@, ret) is Some,
    ensures
        Some(final(ram)@) == push_frame(old(ram)@, ret),
        final(ram).wf(),
{
    ram.push(ret);
    let lcl = ram.read(1);
    ram.push(lcl);
    let arg = ram.read(2);
    ram.push(arg);
    let this = ram.read(3);
    ram.push(this);
    let that = ram.read(4);
    ram.push(that);
}

/// Sets the command index to where `label_name` is in the function of `function_metadata`.
fn goto(current_command_index: &mut usize, function_metadata: &FunctionMetadata, label_name: &str)
    requires
        function_metadata@.labels.dom().contains(label_name@),
    ensures
        *final(current_command_index) == function_metadata@.labels[label_name@],
{
    *current_command_index = function_metadata.label_name_to_command_index.get(label_name).unwrap();
}

/// The command at the current index can run without failing, from a state whose
/// current file is the program's, with `static_segment` that file's statics.
pub open spec fn step_ready(p: Program, rs: RunState, static_segment: Word) -> bool {
    &&& rs.wf()
    &&& rs.current_file_index < p.files@.len()
    &&& static_segment == p.files@[rs.current_file_index as int].static_segment.first
    &&& vm_step(p@, rs@) is Some
}

/// `after` is the state one command after `before`, and `r` the statics of its file.
pub open spec fn step_done(p: Program, before: RunState, after: RunState, r: Word) -> bool {
    &&& after@ == vm_step(p@, before@).unwrap()
    &&& after.wf()
    &&& after.current_file_index < p.files@.len()
    &&& r == p.files@[after.current_file_index as int].static_segment.first
}

/// An arithmetic, logical or label command.
pub open spec fn is_stack_command(c: VMCommand) -> bool {
    c is Add || c is Sub || c is Neg || c is Eq || c is Gt || c is Lt || c is And || c is Or
        || c is Not || c is Label
}

/// A push, pop or function command.
pub open spec fn is_move_command(c: VMCommand) -> bool {
    c is Push || c is Pop || c is Function
}

/// Runs an arithmetic, logical or label command at the current index.
fn execute_stack(program: &Program, run_state: &mut RunState, static_segment: Word)
    requires
        step_ready(*program, *old(run_state), static_segment),
        is_stack_command(program.all_commands@[old(run_state).current_command_index as int]),
    ensures
        step_done(*program, *old(run_state), *final(run_state), static_segment),
{
    let i = run_state.current_command_index;
    assert(program@.commands[i as int] == program.all_commands@[i as int]@);
    let len = program.all_commands.len();
    let command = &program.all_commands[i];
    let next = i + 1;
    match command {
        VMCommand::Add => {
            let y = run_state.ram.pop();
            let x = run_state.ram.stack_top();
            run_state.ram.set_stack_top(x.wrapping_add(y));
        },
        VMCommand::Sub => {
            let y = run_state.ram.pop();
            let x = run_state.ram.stack_top();
            run_state.ram.set_stack_top(x.wrapping_sub(y));
        },
        VMCommand::Neg => {
            let y = run_state.ram.stack_top();
            run_state.ram.set_stack_top(0i16.wrapping_sub(y));
        },
        VMCommand::Eq => {
            let y = run_state.ram.pop();
            let x = run_state.ram.stack_top();
            run_state.ram.set_stack_top(if x == y { -1 } else { 0 });
        },
        VMCommand::Gt => {
            let y = run_state.ram.pop();
            let x = run_state.ram.stack_top();
            run_state.ram.set_stack_top(if x > y { -1 } else { 0 });
        },
        VMCommand::Lt => {
            let y = run_state.ram.pop();
            let x = run_state.ram.stack_top();
            run_state.ram.set_stack_top(if x < y { -1 } else { 0 });
        },
        VMCommand::And => {
            let y = run_state.ram.pop();
            let x = run_state.ram.stack_top();
            run_state.ram.set_stack_top(x & y);
        },
        VMCommand::Or => {
            let y = run_state.ram.pop();
            let x = run_state.ram.stack_top();
            run_state.ram.set_stack_top(x | y);
        },
        VMCommand::Not => {
            let x = run_state.ram.stack_top();
            run_state.ram.set_stack_top(x ^ -1);
        },
        _ => {},
    }
    run_state.current_command_index = next;
}

/// Runs a push, pop or function command at the current index.
#[verifier::rlimit(50)]
fn execute_move(program: &Program, run_state: &mut RunState, static_segment: Word)
    requires
        step_ready(*program, *old(run_state), static_segment),
        is_move_command(program.all_commands@[old(run_state).current_command_index as int]),
    ensures
        step_done(*program, *old(run_state), *final(run_state), static_segment),
{
    let i = run_state.current_command_index;
    assert(program@.commands[i as int] == program.all_commands@[i as int]@);
    let len = program.all_commands.len();
    let command = &program.all_commands[i];
    let next = i + 1;
    match command {
        VMCommand::Push { segment, offset } => {
            let value = run_state.ram.get(static_segment, *segment, *offset);
            run_state.ram.push(value);
        },
        VMCommand::Pop { segment, offset } => {
            let value = run_state.ram.pop();
            run_state.ram.set(static_segment, *segment, *offset, value);
        },
        VMCommand::Function { name: _, local_var_count } => {
            push_zeros_exec(&mut run_state.ram, *local_var_count);
        },
        _ => {},
    }
    run_state.current_command_index = next;
}

/// Runs a goto or if-goto command at the current index.
fn execute_jump(program: &Program, run_state: &mut RunState, static_segment: Word)
    requires
        step_ready(*program, *old(run_state), static_segment),
        program.all_commands@[old(run_state).current_command_index as int] is Goto
            || program.all_commands@[old(run_state).current_command_index as int] is IfGoto,
    ensures
        step_done(*program, *old(run_state), *final(run_state), static_segment),
{
    let i = run_state.current_command_index;
    assert(program@.commands[i as int] == program.all_commands@[i as int]@);
    let len = program.all_commands.len();
    let command = &program.all_commands[i];
    let next = i + 1;
    match command {
        VMCommand::Goto { label_name } => {
            let frame = run_state.call_stack[run_state.call_stack.len() - 1];
            goto(&mut run_state.current_command_index, &program.function_metadata[frame.function_index], label_name.as_str());
        },
        VMCommand::IfGoto { label_name } => {
            let value = run_state.ram.pop();
            if value != 0 {
                let frame = run_state.call_stack[run_state.call_stack.len() - 1];
                goto(&mut run_state.current_command_index, &program.function_metadata[frame.function_index], label_name.as_str());
            } else {
                run_state.current_command_index = next;
            }
        },
        _ => {},
    }
}

/// Runs the call command at the current index.
fn execute_call(program: &Program, run_state: &mut RunState, static_segment: Word) -> (r: Word)
    requires
        step_ready(*program, *old(run_state), static_segment),
        program.all_commands@[old(run_state).current_command_index as int] is Call,
    ensures
        step_done(*program, *old(run_state), *final(run_state), r),
{
    let i = run_state.current_command_index;
    assert(program@.commands[i as int] == program.all_commands@[i as int]@);
    let len = program.all_commands.len();
    let command = &program.all_commands[i];
    let next = i + 1;
    match command {
        VMCommand::Call { function_name, argument_count } => {
            let name = function_name.as_str();
            match run_state.func_stats.get(name) {
                Some(count) => run_state.func_stats.insert(name, count + 1),
                None => run_state.func_stats.insert(name, 1),
            }
            let argument_segment = run_state.ram.read(0) - *argument_count;
            push_frame_exec(&mut run_state.ram, next as Word);
            let local_segment = run_state.ram.read(0);
            run_state.ram.write(1, local_segment);
            run_state.ram.write(2, argument_segment);
            if run_state.call_os(name) {
                let frame = run_state.ram.read(1);
                run_state.current_command_index = return_from(&mut run_state.ram, frame, static_segment);
                static_segment
            } else {
                let function_index = program.function_name_to_index.get(name).unwrap();
                let function_metadata = &program.function_metadata[function_index];
                let file_index = function_metadata.file_index;
                run_state.current_command_index = function_metadata.command_index;
                run_state.current_file_index = file_index;
                run_state.call_stack.push(Frame { function_index });
                assert(program@.files[file_index as int] == program.files@[file_index as int]@);
                program.files[file_index].static_segment.start()
            }
        },
        _ => static_segment,
    }
}

/// Runs the return command at the current index.
fn execute_return(program: &Program, run_state: &mut RunState, static_segment: Word) -> (r: Word)
    requires
        step_ready(*program, *old(run_state), static_segment),
        program.all_commands@[old(run_state).current_command_index as int] is Return,
    ensures
        step_done(*program, *old(run_state), *final(run_state), r),
{
    let i = run_state.current_command_index;
    assert(program@.commands[i as int] == program.all_commands@[i as int]@);
    let frame = run_state.ram.read(1);
    run_state.current_command_index = return_from(&mut run_state.ram, frame, static_segment);
    run_state.call_stack.pop();
    let last_frame = run_state.call_stack[run_state.call_stack.len() - 1];
    let file_index = program.function_metadata[last_frame.function_index].file_index;
    run_state.current_file_index = file_index;
    assert(program@.files[file_index as int] == program.files@[file_index as int]@);
    program.files[file_index].static_segment.start()
}

/// Runs the current command and gives the static segment of the file it leaves current.
fn execute(program: &Program, run_state: &mut RunState, static_segment: Word) -> (r: Word)
    requires
        step_ready(*program, *old(run_state), static_segment),
    ensures
        step_done(*program, *old(run_state), *final(run_state), r),
{
    let i = run_state.current_command_index;
    assert(program@.commands[i as int] == program.all_commands@[i as int]@);
    match &program.all_commands[i] {
        VMCommand::Call { .. } => execute_call(program, run_state, static_segment),
        VMCommand::Return => execute_return(program, run_state, static_segment),
        VMCommand::Push { .. } | VMCommand::Pop { .. } | VMCommand::Function { .. } => {
            execute_move(program, run_state, static_segment);
            static_segment
        },
        VMCommand::Goto { .. } | VMCommand::IfGoto { .. } => {
            execute_jump(program, run_state, static_segment);
            static_segment
        },
        _ => {
            execute_stack(program, run_state, static_segment);
            static_segment
        },
    }
}

pub struct VM {
    pub run_state: RunState,
    pub program: Program,
}

impl VM {
    /// Runs `num_steps` commands.
    pub fn run(&mut self, num_steps: u64)
        requires
            old(self).run_state.wf(),
            vm_run(old(self).program@, old(self).run_state@, num_steps as nat) is Some,
        ensures
            final(self).run_state@ == vm_run(old(self).program@, old(self).run_state@, num_steps as nat).unwrap(),
            final(self).program@ == old(self).program@,
            final(self).run_state.wf(),
            final(self).run_state.current_file_index < final(self).program@.files.len(),
    {
        let ghost p = self.program@;
        let ghost goal = vm_run(p, self.run_state@, num_steps as nat);
        assert(self.program@.files[self.run_state.current_file_index as int] == self.program.files@[self.run_state.current_file_index as int]@);
        let mut static_segment = self.program.files[self.run_state.current_file_index].static_segment.start();
        let mut k: u64 = 0;
        while k < num_steps
            invariant
                k <= num_steps,
                self.program@ == p,
                self.run_state.wf(),
                self.run_state.current_file_index < self.program.files@.len(),
                static_segment == self.program.files@[self.run_state.current_file_index as int].static_segment.first,
                goal is Some,
                vm_steps(p, self.run_state@, (num_steps - k) as nat) == goal,
            decreases num_steps - k,
        {
            static_segment = execute(&self.program, &mut self.run_state, static_segment);
            k = k + 1;
        }
    }
}

/// The file a program starts in: the one named `Sys`, or the first.
pub open spec fn start_file(p: ProgramSpec) -> usize {
    if p.file_names.dom().contains("Sys"@) { p.file_names["Sys"@] } else { 0 }
}

/// The function a program starts in: `Sys.init`, or the first.
pub open spec fn start_function(p: ProgramSpec) -> usize {
    if p.functions.dom().contains("Sys.init"@) { p.functions["Sys.init"@] } else { 0 }
}

/// The state a program starts from: at the first command of its start file, with a fresh
/// RAM and operating system, and its start function on the call stack.
pub open spec fn vm_start(p: ProgramSpec) -> RunSpec {
    RunSpec {
        current_file_index: start_file(p),
        current_command_index: p.files[start_file(p) as int].starting_command_index,
        ram: vm_initial_ram(),
        os: os_default(),
        call_stack: seq![Frame { function_index: start_function(p) }],
        breakpoints: Seq::empty(),
        func_stats: Map::empty(),
    }
}

/// Appends copies of `commands` to `all_commands`.
fn append_commands(all_commands: &mut Vec<VMCommand>, commands: &Vec<VMCommand>)
    ensures
        commands_of(final(all_commands)@) == commands_of(old(all_commands)@) + commands_of(commands@),
{
    let ghost start = all_commands@;
    let mut i: usize = 0;
    while i < commands.len()
        invariant
            i <= commands@.len(),
            commands_of(all_commands@) == commands_of(start) + commands_of(commands@.take(i as int)),
        decreases commands@.len() - i,
    {
        let ghost before = all_commands@;
        all_commands.push(commands[i].duplicate());
        proof {
            assert(commands@.take(i + 1) == commands@.take(i as int).push(commands@[i as int]));
            assert(commands_of(all_commands@) =~= commands_of(before).push(commands@[i as int]@));
            assert(commands_of(commands@.take(i + 1)) =~= commands_of(commands@.take(i as int)).push(
                commands@[i as int]@,
            ));
        }
        i = i + 1;
    }
    assert(commands@.take(commands@.len() as int) == commands@);
}

proof fn lemma_metadata_push(v: Seq<FunctionMetadata>, m: FunctionMetadata)
    ensures
        metadata_of(v.push(m)) == metadata_of(v).push(m@),
{
    assert(metadata_of(v.push(m)) =~= metadata_of(v).push(m@));
}

proof fn lemma_files_push(v: Seq<File>, f: File)
    ensures
        files_of(v.push(f)) == files_of(v).push(f@),
{
    assert(files_of(v.push(f)) =~= files_of(v).push(f@));
}

impl Clone for File {
    fn clone(&self) -> (r: Self)
        ensures
            r@ == self@,
    {
        File {
            name: self.name.clone(),
            starting_command_index: self.starting_command_index,
            command_count: self.command_count,
            static_segment: self.static_segment,
        }
    }
}

impl Program {
    /// A copy of the program.
    pub fn duplicate(&self) -> (r: Program)
        ensures
            r@ == self@,
    {
        let mut all_commands: Vec<VMCommand> = Vec::new();
        append_commands(&mut all_commands, &self.all_commands);
        let mut function_metadata: Vec<FunctionMetadata> = Vec::new();
        let mut i: usize = 0;
        while i < self.function_metadata.len()
            invariant
                i <= self.function_metadata@.len(),
                metadata_of(function_metadata@) == metadata_of(self.function_metadata@.take(i as int)),
            decreases self.function_metadata@.len() - i,
        {
            let ghost before = function_metadata@;
            let m = self.function_metadata[i].clone();
            function_metadata.push(m);
            proof {
                let t = self.function_metadata@.take(i + 1);
                assert(t == self.function_metadata@.take(i as int).push(self.function_metadata@[i as int]));
                lemma_metadata_push(before, m);
                lemma_metadata_push(self.function_metadata@.take(i as int), self.function_metadata@[i as int]);
            }
            i = i + 1;
        }
        let mut files: Vec<File> = Vec::new();
        let mut j: usize = 0;
        while j < self.files.len()
            invariant
                j <= self.files@.len(),
                files_of(files@) == files_of(self.files@.take(j as int)),
            decreases self.files@.len() - j,
        {
            let ghost before = files@;
            let f = self.files[j].clone();
            files.push(f);
            proof {
                let t = self.files@.take(j + 1);
                assert(t == self.files@.take(j as int).push(self.files@[j as int]));
                lemma_files_push(before, f);
                lemma_files_push(self.files@.take(j as int), self.files@[j as int]);
            }
            j = j + 1;
        }
        proof {
            assert(self.function_metadata@.take(self.function_metadata@.len() as int) == self.function_metadata@);
            assert(self.files@.take(self.files@.len() as int) == self.files@);
            assert(commands_of(all_commands@) =~= commands_of(self.all_commands@));
        }
        Program {
            all_commands,
            function_name_to_index: self.function_name_to_index.clone(),
            function_metadata,
            file_name_to_index: self.file_name_to_index.clone(),
            files,
        }
    }
}

impl VM {
    /// A VM at the start of `program`.
    pub fn new(program: Program) -> (vm: VM)
        requires
            start_file(program@) < program@.files.len(),
        ensures
            vm.program@ == program@,
            vm.run_state@ == vm_start(program@),
            vm.run_state.wf(),
    {
        let current_file_index = match program.file_name_to_index.get("Sys") {
            Some(i) => i,
            None => 0,
        };
        proof {
            reveal_strlit("Sys");
        }
        assert(program@.files[current_file_index as int] == program.files@[current_file_index as int]@);
        let current_command_index = program.files[current_file_index].starting_command_index;
        let function_index = match program.function_name_to_index.get("Sys.init") {
            Some(i) => i,
            None => 0,
        };
        let mut call_stack: Vec<Frame> = Vec::new();
        call_stack.push(Frame { function_index });
        let breakpoints: Vec<Breakpoint> = Vec::new();
        let func_stats = CallCounts::new();
        let vm = VM {
            program,
            run_state: RunState {
                current_file_index,
                current_command_index,
                ram: RAM::new(),
                os: OS::default(),
                call_stack,
                breakpoints,
                func_stats,
            },
        };
        proof {
            assert(vm.run_state@.call_stack =~= vm_start(vm.program@).call_stack);
            assert(vm.run_state@.breakpoints =~= vm_start(vm.program@).breakpoints);
            assert(vm.run_state@.func_stats =~= vm_start(vm.program@).func_stats);
        }
        vm
    }

    /// Loads the files of commands, each name with its commands, into a VM at the start.
    pub fn from_all_file_commands(all_file_commands: Vec<(String, Vec<VMCommand>)>) -> (vm: VM)
        requires
            load_program(file_commands_of(all_file_commands@)) is Some,
            start_file(load_program(file_commands_of(all_file_commands@)).unwrap())
                < load_program(file_commands_of(all_file_commands@)).unwrap().files.len(),
        ensures
            vm.program@ == load_program(file_commands_of(all_file_commands@)).unwrap(),
            vm.run_state@ == vm_start(vm.program@),
            vm.run_state.wf(),
    {
        let ghost fs = file_commands_of(all_file_commands@);
        let ghost empty = LoadAcc {
            commands: Seq::empty(),
            functions: Map::empty(),
            metadata: Seq::empty(),
            file_names: Map::empty(),
            files: Seq::empty(),
            next_static: 16,
        };
        let mut all_commands: Vec<VMCommand> = Vec::new();
        let mut file_name_to_index = IndexMap::new();
        let mut files: Vec<File> = Vec::new();
        let mut next_static_index: Word = 16;
        let mut function_name_to_index = IndexMap::new();
        let mut function_metadata: Vec<FunctionMetadata> = Vec::new();
        proof {
            assert(commands_of(all_commands@) =~= empty.commands);
            assert(index_entries(function_name_to_index) =~= empty.functions);
            assert(metadata_of(function_metadata@) =~= empty.metadata);
            assert(index_entries(file_name_to_index) =~= empty.file_names);
            assert(files_of(files@) =~= empty.files);
        }
        let mut k: usize = 0;
        while k < all_file_commands.len()
            invariant
                k <= all_file_commands@.len(),
                fs == file_commands_of(all_file_commands@),
                16 <= next_static_index,
                load_from(fs, 0, empty) is Some,
                load_from(
                    fs,
                    k as int,
                    LoadAcc {
                        commands: commands_of(all_commands@),
                        functions: index_entries(function_name_to_index),
                        metadata: metadata_of(function_metadata@),
                        file_names: index_entries(file_name_to_index),
                        files: files_of(files@),
                        next_static: next_static_index as int,
                    },
                ) == load_from(fs, 0, empty),
            decreases all_file_commands@.len() - k,
        {
            let name = &all_file_commands[k].0;
            let file_commands = &all_file_commands[k].1;
            assert(fs[k as int] == (name@, commands_of(file_commands@)));
            let ghost acc = LoadAcc {
                commands: commands_of(all_commands@),
                functions: index_entries(function_name_to_index),
                metadata: metadata_of(function_metadata@),
                file_names: index_entries(file_name_to_index),
                files: files_of(files@),
                next_static: next_static_index as int,
            };
            let ghost next = load_file(name@, commands_of(file_commands@), acc);
            assert(next is Some);
            assert(acc.files.len() == files@.len());
            assert(acc.commands.len() == all_commands@.len());
            assert(acc.next_static as Word == next_static_index);
            let file_index = files.len();
            let file = File::new(
                name.as_str(),
                file_index,
                file_commands.as_slice(),
                all_commands.len(),
                next_static_index,
                &mut function_name_to_index,
                &mut function_metadata,
            );
            next_static_index = file.static_segment.end() + 1;
            file_name_to_index.insert(name.as_str(), file_index);
            let ghost files_before = files@;
            files.push(file);
            append_commands(&mut all_commands, file_commands);
            proof {
                lemma_files_push(files_before, file);
                assert(files_of(files@) == next.unwrap().files);
                assert(commands_of(all_commands@) == next.unwrap().commands);
                assert(index_entries(function_name_to_index) == next.unwrap().functions);
                assert(metadata_of(function_metadata@) == next.unwrap().metadata);
                assert(index_entries(file_name_to_index) == next.unwrap().file_names);
                assert(next_static_index as int == next.unwrap().next_static);
            }
            k = k + 1;
        }
        let program = Program {
            all_commands,
            function_name_to_index,
            function_metadata,
            file_name_to_index,
            files,
        };
        VM::new(program)
    }

    /// Runs one command.
    pub fn step(&mut self)
        requires
            old(self).run_state.wf(),
            vm_run(old(self).program@, old(self).run_state@, 1) is Some,
        ensures
            final(self).run_state@ == vm_run(old(self).program@, old(self).run_state@, 1).unwrap(),
            final(self).program@ == old(self).program@,
            final(self).run_state.wf(),
            final(self).run_state.current_file_index < final(self).program@.files.len(),
    {
        self.run(1)
    }

    /// Starts the program over; the breakpoints and call counts are dropped.
    pub fn reset(&mut self)
        requires
            start_file(old(self).program@) < old(self).program@.files.len(),
        ensures
            final(self).program@ == old(self).program@,
            final(self).run_state@ == vm_start(old(self).program@),
            final(self).run_state.wf(),
    {
        *self = VM::new(self.program.duplicate());
    }

    pub fn get_breakpoints(&self) -> (r: &Vec<Breakpoint>)
        ensures
            r@ == self.run_state.breakpoints@,
    {
        &self.run_state.breakpoints
    }

    pub fn add_breakpoint(&mut self, breakpoint: &Breakpoint)
        ensures
            final(self).run_state.breakpoints@ == old(self).run_state.breakpoints@.push(*breakpoint),
            final(self).program@ == old(self).program@,
    {
        self.run_state.breakpoints.push(breakpoint.duplicate());
    }

    pub fn remove_breakpoint(&mut self, index: usize)
        requires
            index < old(self).run_state.breakpoints@.len(),
        ensures
            final(self).run_state.breakpoints@ == old(self).run_state.breakpoints@.remove(index as int),
            final(self).program@ == old(self).program@,
    {
        self.run_state.breakpoints.remove(index);
    }

    /// A VM that runs commands itself is always ready.
    pub fn is_ready(&self) -> (r: bool)
        ensures
            r,
    {
        true
    }

    pub fn copy_ram(&self) -> (r: RAM)
        ensures
            r@ == self.run_state.ram@,
    {
        RAM { contents: self.run_state.ram.contents.clone() }
    }

    pub fn set_ram_value(&mut self, address: i16, value: i16)
        requires
            old(self).run_state.wf(),
            0 <= address,
        ensures
            final(self).run_state.ram@ == old(self).run_state.ram@.update(address as int, value),
            final(self).run_state.wf(),
            final(self).program@ == old(self).program@,
    {
        self.run_state.ram.write(address, value);
    }

    pub fn get_ram_value(&self, address: i16) -> (r: i16)
        requires
            self.run_state.wf(),
            0 <= address,
        ensures
            r == self.run_state.ram@[address as int],
    {
        self.run_state.ram.read(address)
    }

    pub fn current_file_index(&self) -> (r: usize)
        ensures
            r == self.run_state.current_file_index,
    {
        self.run_state.current_file_index
    }

    pub fn current_command_index(&self) -> (r: usize)
        ensures
            r == self.run_state.current_command_index,
    {
        self.run_state.current_command_index
    }

    pub fn current_file_name(&self) -> (r: &str)
        requires
            self.run_state.current_file_index < self.program.files@.len(),
        ensures
            r@ == self.program.files@[self.run_state.current_file_index as int].name@,
    {
        let index = self.current_file_index();
        self.program.files[index].name.as_str()
    }
}

/// The value of a sequence of decimal digits.
pub open spec fn decimal_value(s: Seq<char>) -> int
    decreases s.len(),
{
    if s.len() == 0 {
        0
    } else {
        decimal_value(s.drop_last()) * 10 + (s.last() as int - '0' as int)
    }
}

/// Every character is a decimal digit.
pub open spec fn all_digits(s: Seq<char>) -> bool {
    forall|i: int| 0 <= i < s.len() ==> '0' <= #[trigger] s[i] <= '9'
}

/// A word written in decimal with an optional sign, as `str::parse` reads it; `None` where
/// the text is not one, or its value is not a word.
pub open spec fn parse_word(s: Seq<char>) -> Option<Word> {
    let neg = s.len() > 0 && s[0] == '-';
    let body = if s.len() > 0 && (s[0] == '-' || s[0] == '+') { s.skip(1) } else { s };
    let v = if neg { -decimal_value(body) } else { decimal_value(body) };
    if body.len() == 0 || !all_digits(body) || !in_word(v) { None } else { Some(v as Word) }
}

/// A longer run of digits is worth at least as much as its start.
pub proof fn lemma_decimal_grows(s: Seq<char>, k: int)
    requires
        all_digits(s),
        0 <= k <= s.len(),
    ensures
        decimal_value(s.take(k)) <= decimal_value(s),
        0 <= decimal_value(s.take(k)),
    decreases s.len(),
{
    if k < s.len() {
        let t = s.drop_last();
        assert(t.take(k) == s.take(k));
        assert(all_digits(t));
        lemma_decimal_grows(t, k);
        lemma_decimal_grows(t, t.len() as int);
        assert(t.take(t.len() as int) == t);
    } else {
        assert(s.take(k) == s);
        if s.len() > 0 {
            let t = s.drop_last();
            assert(all_digits(t));
            lemma_decimal_grows(t, t.len() as int);
            assert(t.take(t.len() as int) == t);
        }
    }
}

/// Reads a word written in decimal with an optional sign.
pub fn parse_word_exec(text: &str) -> (r: Option<Word>)
    ensures
        r == parse_word(text@),
{
    let cs = str_chars(text);
    let n = cs.len();
    if n == 0 {
        return None;
    }
    let neg = cs[0] == '-';
    let start: usize = if cs[0] == '-' || cs[0] == '+' { 1 } else { 0 };
    let ghost body = if cs@[0] == '-' || cs@[0] == '+' { cs@.skip(1) } else { cs@ };
    assert(body =~= cs@.skip(start as int));
    if start == n {
        return None;
    }
    let mut v: i32 = 0;
    let mut i: usize = start;
    while i < n
        invariant
            start <= i <= n,
            n == cs@.len(),
            cs@ == text@,
            n > 0,
            neg == (cs@[0] == '-'),
            start == (if cs@[0] == '-' || cs@[0] == '+' { 1usize } else { 0usize }),
            body == cs@.skip(start as int),
            all_digits(body.take(i - start)),
            v == decimal_value(body.take(i - start)),
            0 <= v <= 32768,
        decreases n - i,
    {
        let c = cs[i];
        assert(body[i - start] == c);
        if !('0' <= c && c <= '9') {
            assert(!all_digits(body));
            return None;
        }
        let ghost pre = body.take(i - start);
        assert(body.take(i + 1 - start).drop_last() == pre);
        assert(body.take(i + 1 - start).last() == c);
        v = v * 10 + ((c as u32) - ('0' as u32)) as i32;
        assert(v == decimal_value(body.take(i + 1 - start)));
        assert(all_digits(body.take(i + 1 - start)));
        if v > 32768 {
            proof {
                let pb = if text@.len() > 0 && (text@[0] == '-' || text@[0] == '+') { text@.skip(1) } else { text@ };
                assert(pb == body);
                if all_digits(body) {
                    lemma_decimal_grows(body, i + 1 - start);
                    assert(decimal_value(body) > 32768);
                    assert(!in_word(-decimal_value(body)));
                    assert(!in_word(decimal_value(body)));
                }
                assert(parse_word(text@) is None);
            }
            return None;
        }
        i = i + 1;
    }
    assert(body.take(n - start) == body);
    let value: i32 = if neg { -v } else { v };
    if value < -32768 || value > 32767 {
        None
    } else {
        Some(value as Word)
    }
}

/// The text of `prefix[i]`.
pub open spec fn indexed_text(prefix: Seq<char>, i: Word) -> Seq<char> {
    prefix + seq!['['] + int_text(i as int) + seq![']']
}

/// The name a breakpoint's variable is shown under.
pub open spec fn breakpoint_name(b: Breakpoint) -> Seq<char> {
    match b {
        Breakpoint::SP(_) => "SP"@,
        Breakpoint::CurrentFunction(_) => "Current Function"@,
        Breakpoint::Line { .. } => "Line"@,
        Breakpoint::RAM { address, .. } => indexed_text("RAM"@, address),
        Breakpoint::LCL(_) => "LCL"@,
        Breakpoint::Local { offset, .. } => indexed_text("LCL"@, offset),
        Breakpoint::ARG(_) => "ARG"@,
        Breakpoint::Argument { offset, .. } => indexed_text("ARG"@, offset),
        Breakpoint::This(_) => "THIS"@,
        Breakpoint::ThisPointer { offset, .. } => indexed_text("THIS"@, offset),
        Breakpoint::That(_) => "THAT"@,
        Breakpoint::ThatPointer { offset, .. } => indexed_text("THIS"@, offset),
        Breakpoint::Temp { offset, .. } => indexed_text("TEMP"@, offset),
    }
}

/// The value a breakpoint waits for, as text.
pub open spec fn breakpoint_value(b: Breakpoint) -> Seq<char> {
    match b {
        Breakpoint::SP(value) => int_text(value as int),
        Breakpoint::RAM { value, .. } => int_text(value as int),
        Breakpoint::LCL(value) => int_text(value as int),
        Breakpoint::Local { value, .. } => int_text(value as int),
        Breakpoint::ARG(value) => int_text(value as int),
        Breakpoint::Argument { value, .. } => int_text(value as int),
        Breakpoint::This(value) => int_text(value as int),
        Breakpoint::ThisPointer { value, .. } => int_text(value as int),
        Breakpoint::That(value) => int_text(value as int),
        Breakpoint::ThatPointer { value, .. } => int_text(value as int),
        Breakpoint::Temp { value, .. } => int_text(value as int),
        Breakpoint::Line { file_name, line_number } => file_name@ + seq![':'] + int_text(line_number as int),
        Breakpoint::CurrentFunction(function_name) => function_name@,
    }
}

/// The address or offset a breakpoint watches, where it has one.
pub open spec fn breakpoint_address(b: Breakpoint) -> Option<Word> {
    match b {
        Breakpoint::RAM { address, .. } => Some(address),
        Breakpoint::Local { offset, .. } => Some(offset),
        Breakpoint::Argument { offset, .. } => Some(offset),
        Breakpoint::ThisPointer { offset, .. } => Some(offset),
        Breakpoint::ThatPointer { offset, .. } => Some(offset),
        Breakpoint::Temp { offset, .. } => Some(offset),
        _ => None,
    }
}

/// The breakpoint watching `a` in place of its address or offset.
pub open spec fn with_address(b: Breakpoint, a: Word) -> Breakpoint {
    match b {
        Breakpoint::RAM { address: _, value } => Breakpoint::RAM { address: a, value },
        Breakpoint::Local { offset: _, value } => Breakpoint::Local { offset: a, value },
        Breakpoint::Argument { offset: _, value } => Breakpoint::Argument { offset: a, value },
        Breakpoint::ThisPointer { offset: _, value } => Breakpoint::ThisPointer { offset: a, value },
        Breakpoint::ThatPointer { offset: _, value } => Breakpoint::ThatPointer { offset: a, value },
        Breakpoint::Temp { offset: _, value } => Breakpoint::Temp { offset: a, value },
        _ => b,
    }
}

/// The breakpoint waiting for `v` in place of its numeric value.
pub open spec fn with_value(b: Breakpoint, v: Word) -> Breakpoint {
    match b {
        Breakpoint::SP(_) => Breakpoint::SP(v),
        Breakpoint::RAM { address, value: _ } => Breakpoint::RAM { address, value: v },
        Breakpoint::LCL(_) => Breakpoint::LCL(v),
        Breakpoint::Local { offset, value: _ } => Breakpoint::Local { offset, value: v },
        Breakpoint::ARG(_) => Breakpoint::ARG(v),
        Breakpoint::Argument { offset, value: _ } => Breakpoint::Argument { offset, value: v },
        Breakpoint::This(_) => Breakpoint::This(v),
        Breakpoint::ThisPointer { offset, value: _ } => Breakpoint::ThisPointer { offset, value: v },
        Breakpoint::That(_) => Breakpoint::That(v),
        Breakpoint::ThatPointer { offset, value: _ } => Breakpoint::ThatPointer { offset, value: v },
        Breakpoint::Temp { offset, value: _ } => Breakpoint::Temp { offset, value: v },
        _ => b,
    }
}

/// `prefix[i]` as a `String`.
fn indexed(prefix: &str, i: Word) -> (r: String)
    ensures
        r@ == indexed_text(prefix@, i),
{
    let mut r = prefix.to_owned();
    push_str(&mut r, "[");
    let n = int_to_string(i as i32);
    push_str(&mut r, n.as_str());
    push_str(&mut r, "]");
    proof {
        reveal_strlit("[");
        reveal_strlit("]");
    }
    r
}

impl Breakpoint {
    /// A copy of the breakpoint.
    pub fn duplicate(&self) -> (r: Breakpoint)
        ensures
            r == *self,
    {
        match self {
            Breakpoint::SP(v) => Breakpoint::SP(*v),
            Breakpoint::CurrentFunction(f) => Breakpoint::CurrentFunction(f.clone()),
            Breakpoint::Line { file_name, line_number } => Breakpoint::Line {
                file_name: file_name.clone(),
                line_number: *line_number,
            },
            Breakpoint::RAM { address, value } => Breakpoint::RAM { address: *address, value: *value },
            Breakpoint::LCL(v) => Breakpoint::LCL(*v),
            Breakpoint::Local { offset, value } => Breakpoint::Local { offset: *offset, value: *value },
            Breakpoint::ARG(v) => Breakpoint::ARG(*v),
            Breakpoint::Argument { offset, value } => Breakpoint::Argument { offset: *offset, value: *value },
            Breakpoint::This(v) => Breakpoint::This(*v),
            Breakpoint::ThisPointer { offset, value } => Breakpoint::ThisPointer { offset: *offset, value: *value },
            Breakpoint::That(v) => Breakpoint::That(*v),
            Breakpoint::ThatPointer { offset, value } => Breakpoint::ThatPointer { offset: *offset, value: *value },
            Breakpoint::Temp { offset, value } => Breakpoint::Temp { offset: *offset, value: *value },
        }
    }

    pub fn variable_name(&self) -> (r: String)
        ensures
            r@ == breakpoint_name(*self),
    {
        match self {
            Breakpoint::SP(_) => "SP".to_owned(),
            Breakpoint::CurrentFunction(_) => "Current Function".to_owned(),
            Breakpoint::Line { .. } => "Line".to_owned(),
            Breakpoint::RAM { address, .. } => indexed("RAM", *address),
            Breakpoint::LCL(_) => "LCL".to_owned(),
            Breakpoint::Local { offset, .. } => indexed("LCL", *offset),
            Breakpoint::ARG(_) => "ARG".to_owned(),
            Breakpoint::Argument { offset, .. } => indexed("ARG", *offset),
            Breakpoint::This(_) => "THIS".to_owned(),
            Breakpoint::ThisPointer { offset, .. } => indexed("THIS", *offset),
            Breakpoint::That(_) => "THAT".to_owned(),
            Breakpoint::ThatPointer { offset, .. } => indexed("THIS", *offset),
            Breakpoint::Temp { offset, .. } => indexed("TEMP", *offset),
        }
    }

    pub fn value(&self) -> (r: String)
        ensures
            r@ == breakpoint_value(*self),
    {
        match self {
            Breakpoint::SP(value)
            | Breakpoint::RAM { value, .. }
            | Breakpoint::LCL(value)
            | Breakpoint::Local { value, .. }
            | Breakpoint::ARG(value)
            | Breakpoint::Argument { value, .. }
            | Breakpoint::This(value)
            | Breakpoint::ThisPointer { value, .. }
            | Breakpoint::That(value)
            | Breakpoint::ThatPointer { value, .. }
            | Breakpoint::Temp { value, .. } => int_to_string(*value as i32),
            Breakpoint::Line { file_name, line_number } => {
                let mut r = file_name.clone();
                push_str(&mut r, ":");
                let n = int_to_string(*line_number as i32);
                push_str(&mut r, n.as_str());
                proof {
                    reveal_strlit(":");
                }
                r
            },
            Breakpoint::CurrentFunction(function_name) => function_name.clone(),
        }
    }

    pub fn address(&self) -> (r: Option<Word>)
        ensures
            r == breakpoint_address(*self),
    {
        match self {
            Breakpoint::SP(_) => None,
            Breakpoint::CurrentFunction(_) => None,
            Breakpoint::Line { .. } => None,
            Breakpoint::RAM { address, .. } => Some(*address),
            Breakpoint::LCL(_) => None,
            Breakpoint::Local { offset, .. } => Some(*offset),
            Breakpoint::ARG(_) => None,
            Breakpoint::Argument { offset, .. } => Some(*offset),
            Breakpoint::This(_) => None,
            Breakpoint::ThisPointer { offset, .. } => Some(*offset),
            Breakpoint::That(_) => None,
            Breakpoint::ThatPointer { offset, .. } => Some(*offset),
            Breakpoint::Temp { offset, .. } => Some(*offset),
        }
    }

    /// Moves the breakpoint to another address or offset.
    pub fn change_address(&mut self, new_address: Word)
        requires
            breakpoint_address(*old(self)) is Some,
        ensures
            *final(self) == with_address(*old(self), new_address),
    {
        match self {
            Breakpoint::RAM { address, .. } => *address = new_address,
            Breakpoint::Local { offset, .. } => *offset = new_address,
            Breakpoint::Argument { offset, .. } => *offset = new_address,
            Breakpoint::ThisPointer { offset, .. } => *offset = new_address,
            Breakpoint::ThatPointer { offset, .. } => *offset = new_address,
            Breakpoint::Temp { offset, .. } => *offset = new_address,
            _ => {},
        }
    }

    /// Sets the value the breakpoint waits for from text: a number for the numeric
    /// breakpoints (text that is not a word changes nothing), a name for the current
    /// function.
    pub fn change_value(&mut self, new_value: String)
        requires
            !(*old(self) is Line),
        ensures
            match *old(self) {
                Breakpoint::CurrentFunction(_) => *final(self) == Breakpoint::CurrentFunction(new_value),
                _ => match parse_word(new_value@) {
                    None => *final(self) == *old(self),
                    Some(v) => *final(self) == with_value(*old(self), v),
                },
            },
    {
        match self {
            Breakpoint::CurrentFunction(value) => {
                *value = new_value;
            },
            Breakpoint::Line { .. } => {},
            _ => {
                if let Some(int_value) = parse_word_exec(new_value.as_str()) {
                    self.set_value(int_value);
                }
            },
        }
    }

    /// Sets the numeric value the breakpoint waits for.
    fn set_value(&mut self, v: Word)
        ensures
            *final(self) == with_value(*old(self), v),
    {
        match self {
            Breakpoint::SP(value) => *value = v,
            Breakpoint::RAM { value, .. } => *value = v,
            Breakpoint::LCL(value) => *value = v,
            Breakpoint::Local { value, .. } => *value = v,
            Breakpoint::ARG(value) => *value = v,
            Breakpoint::Argument { value, .. } => *value = v,
            Breakpoint::This(value) => *value = v,
            Breakpoint::ThisPointer { value, .. } => *value = v,
            Breakpoint::That(value) => *value = v,
            Breakpoint::ThatPointer { value, .. } => *value = v,
            Breakpoint::Temp { value, .. } => *value = v,
            _ => {},
        }
    }
}

/// Where the last '.' of a name is.
pub open spec fn last_dot(name: Seq<char>) -> Option<int>
    decreases name.len(),
{
    if name.len() == 0 {
        None
    } else if name.last() == '.' {
        Some(name.len() - 1)
    } else {
        last_dot(name.drop_last())
    }
}

/// A file name without its extension (what comes before its last '.').
pub open spec fn stem(name: Seq<char>) -> Option<Seq<char>> {
    match last_dot(name) {
        Some(k) => Some(name.take(k)),
        None => None,
    }
}

/// Every file has an extension and holds VM commands.
pub open spec fn sources_ok(v: Seq<(String, String)>) -> bool {
    forall|i: int| 0 <= i < v.len() ==> stem(#[trigger] v[i].0@) is Some && parse_commands(v[i].1@) is Some
}

/// The files by stem, each with its commands.
pub open spec fn sources_files(v: Seq<(String, String)>) -> Seq<(Seq<char>, Seq<Command>)> {
    Seq::new(v.len(), |i: int| (stem(v[i].0@).unwrap(), parse_commands(v[i].1@).unwrap()))
}

/// The name without its extension.
fn stem_exec(name: &str) -> (r: String)
    requires
        stem(name@) is Some,
    ensures
        r@ == stem(name@).unwrap(),
{
    let cs = str_chars(name);
    let mut k = cs.len();
    assert(cs@.take(k as int) == cs@);
    while k > 0 && cs[k - 1] != '.'
        invariant
            k <= cs@.len(),
            cs@ == name@,
            last_dot(cs@) == last_dot(cs@.take(k as int)),
        decreases k,
    {
        assert(cs@.take(k as int).drop_last() == cs@.take(k - 1));
        k = k - 1;
    }
    if k == 0 {
        assert(cs@.take(0) == Seq::<char>::empty());
    } else {
        assert(cs@.take(k as int).last() == '.');
    }
    string_of_range(&cs, 0, k - 1)
}

impl VM {
    /// Loads VM files, each given by its name and text, into a VM at the start.
    pub fn from_file_contents(file_contents: Vec<(String, String)>) -> (vm: VM)
        requires
            sources_ok(file_contents@),
            load_program(sources_files(file_contents@)) is Some,
            start_file(load_program(sources_files(file_contents@)).unwrap())
                < load_program(sources_files(file_contents@)).unwrap().files.len(),
        ensures
            vm.program@ == load_program(sources_files(file_contents@)).unwrap(),
            vm.run_state@ == vm_start(vm.program@),
            vm.run_state.wf(),
    {
        let mut all: Vec<(String, Vec<VMCommand>)> = Vec::new();
        let mut i: usize = 0;
        while i < file_contents.len()
            invariant
                i <= file_contents@.len(),
                sources_ok(file_contents@),
                file_commands_of(all@) == sources_files(file_contents@).take(i as int),
            decreases file_contents@.len() - i,
        {
            let (name, contents) = &file_contents[i];
            assert(stem(file_contents@[i as int].0@) is Some);
            let stem_name = stem_exec(name.as_str());
            let parsed = commands(contents.as_str());
            let cmds = match parsed {
                Ok((_, cmds)) => cmds,
                Err(_) => {
                    assert(false);
                    Vec::new()
                },
            };
            let ghost before = all@;
            all.push((stem_name, cmds));
            proof {
                assert(file_commands_of(all@) =~= file_commands_of(before).push((stem_name@, commands_of(cmds@))));
                assert(sources_files(file_contents@).take(i + 1) =~= sources_files(file_contents@).take(i as int).push(
                    sources_files(file_contents@)[i as int],
                ));
            }
            i = i + 1;
        }
        assert(sources_files(file_contents@).take(file_contents@.len() as int) =~= sources_files(file_contents@));
        VM::from_all_file_commands(all)
    }
}

// ---------------------------------------------------------------- laws

/// Running `m` commands and then `n` more is running `m + n` commands.
pub proof fn lemma_vm_steps_split(p: ProgramSpec, s: RunSpec, m: nat, n: nat)
    ensures
        vm_steps(p, s, m + n) == (match vm_steps(p, s, m) {
            None => None,
            Some(t) => vm_steps(p, t, n),
        }),
    decreases m,
{
    if m > 0 {
        match vm_step(p, s) {
            None => {},
            Some(s2) => {
                lemma_vm_steps_split(p, s2, (m - 1) as nat, n);
                assert((m + n - 1) as nat == ((m - 1) as nat + n) as nat);
            },
        }
    }
}

/// A pop gives back the word that the push before it wrote, and leaves SP where it was.
pub proof fn lemma_push_pop(ram: Seq<Word>, v: Word)
    requires
        ram.len() == MEM_SIZE,
        1 <= sp(ram),
        push_ram(ram, v) is Some,
    ensures
        pop_ram(push_ram(ram, v).unwrap()) == Some((ram.update(sp(ram) as int, v), v)),
{
    let r = push_ram(ram, v).unwrap();
    let p = pop_ram(r).unwrap();
    assert(p.0 =~= ram.update(sp(ram) as int, v));
}

/// The register that holds the base of a segment, for the segments that have one.
pub open spec fn base_register(segment: PopSegment) -> Option<int> {
    match segment {
        PopSegment::Local => Some(1),
        PopSegment::Argument => Some(2),
        PopSegment::This => Some(3),
        PopSegment::That => Some(4),
        _ => None,
    }
}

/// The segment a push reads that a pop into `segment` writes.
pub open spec fn push_segment_of(segment: PopSegment) -> PushSegment {
    match segment {
        PopSegment::Static => PushSegment::Static,
        PopSegment::Local => PushSegment::Local,
        PopSegment::Argument => PushSegment::Argument,
        PopSegment::This => PushSegment::This,
        PopSegment::That => PushSegment::That,
        PopSegment::Temp => PushSegment::Temp,
        PopSegment::Pointer => PushSegment::Pointer,
    }
}

/// Reading a segment entry just written gives back the value written, unless the write
/// landed on the register that holds the segment's base.
pub proof fn lemma_set_get(ram: Seq<Word>, static_segment: Word, segment: PopSegment, offset: Word, v: Word)
    requires
        ram.len() == MEM_SIZE,
        pop_address(ram, static_segment, segment, offset) is Some,
        base_register(segment) != Some(pop_address(ram, static_segment, segment, offset).unwrap() as int),
    ensures
        push_value(
            ram.update(pop_address(ram, static_segment, segment, offset).unwrap() as int, v),
            static_segment,
            push_segment_of(segment),
            offset,
        ) == Some(v),
{
}

/// Labels and jumps leave the RAM as it was, but for the word an if-goto pops.
pub proof fn lemma_jumps_keep_ram(p: ProgramSpec, s: RunSpec)
    requires
        vm_step(p, s) is Some,
        s.current_command_index < p.commands.len(),
        p.commands[s.current_command_index as int] is Label || p.commands[s.current_command_index as int] is Goto,
    ensures
        vm_step(p, s).unwrap().ram == s.ram,
        vm_step(p, s).unwrap().call_stack == s.call_stack,
        vm_step(p, s).unwrap().os == s.os,
{
}

proof fn lemma_digit_char(d: int)
    requires
        0 <= d < 10,
    ensures
        digit_char(d) as int - '0' as int == d,
        '0' <= digit_char(d) <= '9',
{
}

/// The decimal digits of `n` are digits, start with neither sign, and are worth `n`.
pub proof fn lemma_digits_value(n: nat)
    ensures
        decimal_value(nat_digits(n)) == n,
        all_digits(nat_digits(n)),
        nat_digits(n).len() >= 1,
        nat_digits(n)[0] != '-' && nat_digits(n)[0] != '+',
    decreases n,
{
    if n < 10 {
        lemma_digit_char(n as int);
        assert(nat_digits(n).drop_last() =~= Seq::<char>::empty());
        assert(decimal_value(Seq::<char>::empty()) == 0);
        assert(decimal_value(nat_digits(n)) == n);
    } else {
        lemma_digits_value(n / 10);
        lemma_digit_char((n % 10) as int);
        let s = nat_digits(n);
        assert(s.drop_last() == nat_digits(n / 10));
        assert(s.last() == digit_char((n % 10) as int));
        assert(n == (n / 10) * 10 + n % 10) by (nonlinear_arith);
        assert(decimal_value(s) == decimal_value(s.drop_last()) * 10 + (s.last() as int - '0' as int));
        assert forall|i: int| 0 <= i < s.len() implies '0' <= #[trigger] s[i] <= '9' by {
            if i < s.len() - 1 {
                assert(s[i] == nat_digits(n / 10)[i]);
            }
        }
        assert(s[0] == nat_digits(n / 10)[0]);
        assert(decimal_value(s) == n);
    }
}

/// Reading the decimal text of a word gives back the word.
pub proof fn lemma_parse_word_text(v: Word)
    ensures
        parse_word(int_text(v as int)) == Some(v),
{
    let t = int_text(v as int);
    if v < 0 {
        lemma_digits_value((-v) as nat);
        assert(t.skip(1) =~= nat_digits((-v) as nat));
    } else {
        lemma_digits_value(v as nat);
    }
}

/// Setting a numeric breakpoint's value from the text of its value leaves it unchanged.
pub proof fn lemma_breakpoint_value_roundtrip(b: Breakpoint)
    requires
        !(b is Line) && !(b is CurrentFunction),
    ensures
        parse_word(breakpoint_value(b)) is Some,
        with_value(b, parse_word(breakpoint_value(b)).unwrap()) == b,
{
    match b {
        Breakpoint::SP(v) => lemma_parse_word_text(v),
        Breakpoint::RAM { value, .. } => lemma_parse_word_text(value),
        Breakpoint::LCL(v) => lemma_parse_word_text(v),
        Breakpoint::Local { value, .. } => lemma_parse_word_text(value),
        Breakpoint::ARG(v) => lemma_parse_word_text(v),
        Breakpoint::Argument { value, .. } => lemma_parse_word_text(value),
        Breakpoint::This(v) => lemma_parse_word_text(v),
        Breakpoint::ThisPointer { value, .. } => lemma_parse_word_text(value),
        Breakpoint::That(v) => lemma_parse_word_text(v),
        Breakpoint::ThatPointer { value, .. } => lemma_parse_word_text(value),
        Breakpoint::Temp { value, .. } => lemma_parse_word_text(value),
        _ => {},
    }
}

} // verus!

use vstd::prelude::*;

use crate::hardware::Word;
use crate::scan::chars_eq_str;
use crate::text::{push_str, str_chars};
use crate::hack_to_wasm::{find_target, insert_target, ints, strictly_increasing};
use crate::vm::{commands_of, files_of, register_address, Command, FileSpec, PopSegment, Program, PushSegment, Register, VMCommand};

verus! {

/// The first word of the heap, where the compiled memory functions keep the head of the
/// free list (the heap that the operating system hands out starts there too).
pub const HEAP: Word = 0x0800;

/// The byte address of the screen.
pub const RAM_SCREEN_BYTES: i32 = 65536;

/// The number of bytes of the screen.
pub const SCREEN_BYTES: i32 = 32768;

/// A local variable of the compiled VM program; SP, LCL, ARG, THIS and THAT are held as
/// byte addresses (four times the word address).
#[derive(Clone, Copy, Debug, PartialEq, Eq, Structural)]
pub enum VmLocal {
    Ticks,
    Sp,
    Lcl,
    Arg,
    This,
    That,
    JumpTarget,
    Temp,
    Temp2,
    Temp3,
    /// The parameter of the compiled function: how many commands it may run before it
    /// returns.
    Limit,
}

/// A global of the compiled VM program.
#[derive(Clone, Copy, Debug, PartialEq, Eq, Structural)]
pub enum VmGlobal {
    JumpTarget,
    ScreenColor,
}

/// Where a branch goes: the dispatch loop, the block at a relative depth, or the start of
/// the search loop of `Memory.alloc`.
#[derive(Clone, Copy, Debug, PartialEq, Eq, Structural)]
pub enum VmBranch {
    Loop,
    Depth(u32),
    AllocContinue,
}

/// The WebAssembly instructions that compiled VM commands are made of; a load or store
/// carries its constant byte offset.
#[derive(Clone, Copy, Debug, PartialEq, Eq, Structural)]
pub enum VmInstr {
    I32Const(i32),
    LocalGet(VmLocal),
    LocalSet(VmLocal),
    LocalTee(VmLocal),
    GlobalGet(VmGlobal),
    GlobalSet(VmGlobal),
    I32Load(u64),
    I32Store(u64),
    I32Add,
    I32Sub,
    I32Mul,
    I32DivS,
    I32And,
    I32Or,
    I32Xor,
    I32Shl,
    I32ShrS,
    I32ShrU,
    I32Eq,
    I32Eqz,
    I32Ne,
    I32GtS,
    I32LtS,
    I32GeU,
    I32Extend16S,
    MemoryFill,
    Block,
    Loop,
    If,
    Else,
    End,
    Br(VmBranch),
    BrIf(VmBranch),
    /// A branch table whose entry `i` goes to depth `i` for each `i` below the count, and
    /// whose default goes to depth count.
    BrTable(u32),
    Return,
    Unreachable,
}

/// The byte offset of word `offset`.
pub open spec fn word_offset(offset: int) -> u64 {
    (offset * 4) as u64
}

/// Counts one more executed command.
pub open spec fn vm_tick_code() -> Seq<VmInstr> {
    seq![
        VmInstr::I32Const(1),
        VmInstr::LocalGet(VmLocal::Ticks),
        VmInstr::I32Add,
        VmInstr::LocalSet(VmLocal::Ticks),
    ]
}

/// Makes the top of the VM stack the top of the operand stack: taken from the values kept
/// on the operand stack where there is one, else popped from RAM. The code and how many
/// values stay kept.
pub open spec fn prepare1(kept: nat) -> (Seq<VmInstr>, nat) {
    if kept > 0 {
        (seq![], (kept - 1) as nat)
    } else {
        (
            seq![
                VmInstr::LocalGet(VmLocal::Sp),
                VmInstr::I32Const(4),
                VmInstr::I32Sub,
                VmInstr::LocalTee(VmLocal::Sp),
                VmInstr::I32Load(0),
            ],
            0,
        )
    }
}

/// Makes the two top values of the VM stack the two top values of the operand stack.
pub open spec fn prepare2(kept: nat) -> (Seq<VmInstr>, nat) {
    if kept == 0 {
        (
            seq![
                VmInstr::LocalGet(VmLocal::Sp),
                VmInstr::I32Const(8),
                VmInstr::I32Sub,
                VmInstr::LocalTee(VmLocal::Sp),
                VmInstr::I32Load(0),
                VmInstr::LocalGet(VmLocal::Sp),
                VmInstr::I32Load(4),
            ],
            0,
        )
    } else if kept == 1 {
        (
            seq![
                VmInstr::LocalSet(VmLocal::Temp),
                VmInstr::LocalGet(VmLocal::Sp),
                VmInstr::I32Const(4),
                VmInstr::I32Sub,
                VmInstr::LocalTee(VmLocal::Sp),
                VmInstr::I32Load(0),
                VmInstr::LocalGet(VmLocal::Temp),
            ],
            0,
        )
    } else {
        (seq![], (kept - 2) as nat)
    }
}

/// Stores the kept values from `i` on (the top one first) into RAM above SP.
pub open spec fn drop_stores(kept: nat, i: nat) -> Seq<VmInstr>
    decreases kept - i,
{
    if i >= kept {
        seq![]
    } else {
        seq![
            VmInstr::LocalSet(VmLocal::Temp),
            VmInstr::LocalGet(VmLocal::Sp),
            VmInstr::LocalGet(VmLocal::Temp),
            VmInstr::I32Store(word_offset(kept - i - 1)),
        ] + drop_stores(kept, i + 1)
    }
}

/// Moves the kept values to RAM and raises SP over them.
pub open spec fn drop_code(kept: nat) -> Seq<VmInstr> {
    drop_stores(kept, 0) + if kept > 0 {
        seq![
            VmInstr::LocalGet(VmLocal::Sp),
            VmInstr::I32Const((kept * 4) as i32),
            VmInstr::I32Add,
            VmInstr::LocalSet(VmLocal::Sp),
        ]
    } else {
        seq![]
    }
}

/// Makes the top of the VM stack the top of the operand stack.
fn prepare_on_stack1(stack_size: &mut usize, wasm_instructions: &mut Vec<VmInstr>)
    ensures
        final(wasm_instructions)@ == old(wasm_instructions)@ + prepare1(*old(stack_size) as nat).0,
        *final(stack_size) == prepare1(*old(stack_size) as nat).1,
{
    if *stack_size > 0 {
        *stack_size = *stack_size - 1;
    } else {
        wasm_instructions.push(VmInstr::LocalGet(VmLocal::Sp));
        wasm_instructions.push(VmInstr::I32Const(4));
        wasm_instructions.push(VmInstr::I32Sub);
        wasm_instructions.push(VmInstr::LocalTee(VmLocal::Sp));
        wasm_instructions.push(VmInstr::I32Load(0));
    }
}

/// Makes the two top values of the VM stack the two top values of the operand stack.
fn prepare_on_stack2(stack_size: &mut usize, wasm_instructions: &mut Vec<VmInstr>)
    ensures
        final(wasm_instructions)@ == old(wasm_instructions)@ + prepare2(*old(stack_size) as nat).0,
        *final(stack_size) == prepare2(*old(stack_size) as nat).1,
{
    if *stack_size == 0 {
        wasm_instructions.push(VmInstr::LocalGet(VmLocal::Sp));
        wasm_instructions.push(VmInstr::I32Const(8));
        wasm_instructions.push(VmInstr::I32Sub);
        wasm_instructions.push(VmInstr::LocalTee(VmLocal::Sp));
        wasm_instructions.push(VmInstr::I32Load(0));
        wasm_instructions.push(VmInstr::LocalGet(VmLocal::Sp));
        wasm_instructions.push(VmInstr::I32Load(4));
    } else if *stack_size == 1 {
        wasm_instructions.push(VmInstr::LocalSet(VmLocal::Temp));
        wasm_instructions.push(VmInstr::LocalGet(VmLocal::Sp));
        wasm_instructions.push(VmInstr::I32Const(4));
        wasm_instructions.push(VmInstr::I32Sub);
        wasm_instructions.push(VmInstr::LocalTee(VmLocal::Sp));
        wasm_instructions.push(VmInstr::I32Load(0));
        wasm_instructions.push(VmInstr::LocalGet(VmLocal::Temp));
        *stack_size = 0;
    } else {
        *stack_size = *stack_size - 2;
    }
}

/// Moves the values kept on the operand stack to RAM above SP and raises SP over them.
fn drop_stack_to_ram(stack_size: &mut usize, wasm_instructions: &mut Vec<VmInstr>)
    requires
        *old(stack_size) <= 0x8000,
    ensures
        final(wasm_instructions)@ == old(wasm_instructions)@ + drop_code(*old(stack_size) as nat),
        *final(stack_size) == 0,
{
    let kept = *stack_size;
    let ghost start = wasm_instructions@;
    let mut i: usize = 0;
    while i < kept
        invariant
            kept <= 0x8000,
            i <= kept,
            wasm_instructions@ + drop_stores(kept as nat, i as nat) == start + drop_stores(kept as nat, 0),
        decreases kept - i,
    {
        let ghost before = wasm_instructions@;
        wasm_instructions.push(VmInstr::LocalSet(VmLocal::Temp));
        wasm_instructions.push(VmInstr::LocalGet(VmLocal::Sp));
        wasm_instructions.push(VmInstr::LocalGet(VmLocal::Temp));
        wasm_instructions.push(VmInstr::I32Store(((kept - i - 1) as u64) * 4));
        proof {
            let step = seq![
                VmInstr::LocalSet(VmLocal::Temp),
                VmInstr::LocalGet(VmLocal::Sp),
                VmInstr::LocalGet(VmLocal::Temp),
                VmInstr::I32Store(word_offset(kept - i - 1)),
            ];
            assert(wasm_instructions@ =~= before + step);
            assert(drop_stores(kept as nat, i as nat) == step + drop_stores(kept as nat, (i + 1) as nat));
            assert(before + drop_stores(kept as nat, i as nat) =~= wasm_instructions@ + drop_stores(
                kept as nat,
                (i + 1) as nat,
            ));
        }
        i = i + 1;
    }
    assert(drop_stores(kept as nat, kept as nat) =~= Seq::<VmInstr>::empty());
    assert(wasm_instructions@ =~= start + drop_stores(kept as nat, 0));
    let ghost stored = wasm_instructions@;
    if kept > 0 {
        wasm_instructions.push(VmInstr::LocalGet(VmLocal::Sp));
        wasm_instructions.push(VmInstr::I32Const((kept as i32) * 4));
        wasm_instructions.push(VmInstr::I32Add);
        wasm_instructions.push(VmInstr::LocalSet(VmLocal::Sp));
    }
    assert(wasm_instructions@ =~= start + drop_code(kept as nat));
    *stack_size = 0;
}

/// The map that entries give, a later entry for a name replacing an earlier one.
pub open spec fn name_map(entries: Seq<(String, i32)>) -> Map<Seq<char>, i32>
    decreases entries.len(),
{
    if entries.len() == 0 {
        Map::empty()
    } else {
        name_map(entries.drop_last()).insert(entries.last().0@, entries.last().1)
    }
}

proof fn lemma_name_map_tail(entries: Seq<(String, i32)>, i: int, name: Seq<char>)
    requires
        0 <= i <= entries.len(),
        forall|j: int| i <= j < entries.len() ==> entries[j].0@ != name,
    ensures
        name_map(entries).dom().contains(name) == name_map(entries.take(i)).dom().contains(name),
        name_map(entries)[name] == name_map(entries.take(i))[name],
    decreases entries.len() - i,
{
    if i < entries.len() {
        lemma_name_map_tail(entries, i + 1, name);
        assert(entries.take(i + 1).drop_last() =~= entries.take(i));
    } else {
        assert(entries.take(i) =~= entries);
    }
}

/// Case indices by name.
pub struct NameIndices {
    entries: Vec<(String, i32)>,
}

impl View for NameIndices {
    type V = Map<Seq<char>, i32>;

    closed spec fn view(&self) -> Map<Seq<char>, i32> {
        name_map(self.entries@)
    }
}

impl NameIndices {
    pub fn new() -> (r: NameIndices)
        ensures
            r@ == Map::<Seq<char>, i32>::empty(),
    {
        NameIndices { entries: Vec::new() }
    }

    /// Maps `name` to `index`, replacing what it was mapped to.
    pub fn insert(&mut self, name: String, index: i32)
        ensures
            final(self)@ == old(self)@.insert(name@, index),
    {
        let ghost before = self.entries@;
        self.entries.push((name, index));
        assert(self.entries@.drop_last() =~= before);
    }

    /// The index of `name`, if it has one.
    pub fn get(&self, name: &str) -> (r: Option<i32>)
        ensures
            r == if self@.dom().contains(name@) { Some(self@[name@]) } else { None },
    {
        let mut i = self.entries.len();
        while i > 0
            invariant
                i <= self.entries@.len(),
                forall|j: int| i <= j < self.entries@.len() ==> self.entries@[j].0@ != name@,
            decreases i,
        {
            let found = chars_eq_str(&str_chars(self.entries[i - 1].0.as_str()), name);
            if found {
                proof {
                    lemma_name_map_tail(self.entries@, i as int, name@);
                    assert(self.entries@.take(i as int).drop_last() =~= self.entries@.take(i - 1));
                }
                return Some(self.entries[i - 1].1);
            }
            i = i - 1;
        }
        proof {
            lemma_name_map_tail(self.entries@, 0, name@);
            assert(self.entries@.take(0) =~= Seq::<(String, i32)>::empty());
        }
        None
    }
}

/// The map that entries give, a later entry for a command index replacing an earlier one.
pub open spec fn index_map(entries: Seq<(usize, i32)>) -> Map<usize, i32>
    decreases entries.len(),
{
    if entries.len() == 0 {
        Map::empty()
    } else {
        index_map(entries.drop_last()).insert(entries.last().0, entries.last().1)
    }
}

proof fn lemma_index_map_tail(entries: Seq<(usize, i32)>, i: int, key: usize)
    requires
        0 <= i <= entries.len(),
        forall|j: int| i <= j < entries.len() ==> entries[j].0 != key,
    ensures
        index_map(entries).dom().contains(key) == index_map(entries.take(i)).dom().contains(key),
        index_map(entries)[key] == index_map(entries.take(i))[key],
    decreases entries.len() - i,
{
    if i < entries.len() {
        lemma_index_map_tail(entries, i + 1, key);
        assert(entries.take(i + 1).drop_last() =~= entries.take(i));
    } else {
        assert(entries.take(i) =~= entries);
    }
}

/// Case indices by command index.
pub struct CommandIndices {
    entries: std::collections::HashMap<usize, i32>,
}

impl View for CommandIndices {
    type V = Map<usize, i32>;

    closed spec fn view(&self) -> Map<usize, i32> {
        self.entries@
    }
}

impl CommandIndices {
    pub fn new() -> (r: CommandIndices)
        ensures
            r@ == Map::<usize, i32>::empty(),
    {
        CommandIndices { entries: std::collections::HashMap::new() }
    }

    /// Maps `key` to `index`, replacing what it was mapped to.
    pub fn insert(&mut self, key: usize, index: i32)
        ensures
            final(self)@ == old(self)@.insert(key, index),
    {
        broadcast use vstd::std_specs::hash::group_hash_axioms;

        self.entries.insert(key, index);
    }

    /// The index of `key`, if it has one.
    pub fn get(&self, key: usize) -> (r: Option<i32>)
        ensures
            r == if self@.dom().contains(key) { Some(self@[key]) } else { None },
    {
        broadcast use vstd::std_specs::hash::group_hash_axioms;

        match self.entries.get(&key) {
            Some(v) => Some(*v),
            None => None,
        }
    }
}

/// Pushes the value of a segment word.
pub open spec fn push_value_code(segment: PushSegment, offset: Word, static_start: Word) -> Seq<VmInstr> {
    match segment {
        PushSegment::Constant => seq![VmInstr::I32Const(offset as i32)],
        PushSegment::Static => seq![
            VmInstr::I32Const(((static_start + offset) * 4) as i32),
            VmInstr::I32Load(0),
        ],
        PushSegment::Local => seq![VmInstr::LocalGet(VmLocal::Lcl), VmInstr::I32Load(word_offset(offset as int))],
        PushSegment::Argument => seq![VmInstr::LocalGet(VmLocal::Arg), VmInstr::I32Load(word_offset(offset as int))],
        PushSegment::This => seq![VmInstr::LocalGet(VmLocal::This), VmInstr::I32Load(word_offset(offset as int))],
        PushSegment::That => seq![VmInstr::LocalGet(VmLocal::That), VmInstr::I32Load(word_offset(offset as int))],
        PushSegment::Temp => seq![
            VmInstr::I32Const(((5 + offset) * 4) as i32),
            VmInstr::I32Load(word_offset(offset as int)),
        ],
        PushSegment::Pointer => seq![
            VmInstr::LocalGet(if offset == 0 { VmLocal::This } else { VmLocal::That }),
            VmInstr::I32Const(2),
            VmInstr::I32ShrS,
        ],
    }
}

/// Pushes the byte address that the word offset of a popped-to segment is added to.
pub open spec fn pop_base_code(segment: PopSegment, static_start: Word) -> Seq<VmInstr> {
    match segment {
        PopSegment::Static => seq![VmInstr::I32Const((static_start * 4) as i32)],
        PopSegment::Local => seq![VmInstr::LocalGet(VmLocal::Lcl)],
        PopSegment::Argument => seq![VmInstr::LocalGet(VmLocal::Arg)],
        PopSegment::This => seq![VmInstr::LocalGet(VmLocal::This)],
        PopSegment::That => seq![VmInstr::LocalGet(VmLocal::That)],
        PopSegment::Temp => seq![VmInstr::I32Const(20)],
        PopSegment::Pointer => seq![],
    }
}

/// A VM truth value (-1 or 0) from a WebAssembly comparison result (1 or 0).
pub open spec fn truth_code(compare: VmInstr) -> Seq<VmInstr> {
    seq![
        compare,
        VmInstr::LocalSet(VmLocal::Temp),
        VmInstr::I32Const(0),
        VmInstr::LocalGet(VmLocal::Temp),
        VmInstr::I32Sub,
    ]
}

/// Sets a screen pixel (x and y on the operand stack) to the screen color, and pushes 0.
pub open spec fn draw_pixel_code() -> Seq<VmInstr> {
    seq![
        VmInstr::I32Const(128),
        VmInstr::I32Mul,
        VmInstr::I32Const(65536),
        VmInstr::I32Add,
        VmInstr::LocalSet(VmLocal::Temp),
        VmInstr::LocalTee(VmLocal::Temp2),
        VmInstr::I32Const(4),
        VmInstr::I32ShrU,
        VmInstr::I32Const(2),
        VmInstr::I32Shl,
        VmInstr::LocalGet(VmLocal::Temp),
        VmInstr::I32Add,
        VmInstr::LocalTee(VmLocal::Temp),
        VmInstr::LocalGet(VmLocal::Temp),
        VmInstr::I32Load(0),
        VmInstr::I32Const(1),
        VmInstr::LocalGet(VmLocal::Temp2),
        VmInstr::I32Const(15),
        VmInstr::I32And,
        VmInstr::I32Shl,
        VmInstr::LocalTee(VmLocal::Temp2),
        VmInstr::I32Const(-1i32),
        VmInstr::I32Xor,
        VmInstr::I32And,
        VmInstr::GlobalGet(VmGlobal::ScreenColor),
        VmInstr::LocalGet(VmLocal::Temp2),
        VmInstr::I32And,
        VmInstr::I32Or,
        VmInstr::I32Extend16S,
        VmInstr::I32Store(0),
        VmInstr::I32Const(0),
    ]
}

/// Makes the heap one free block (the free-list head at `HEAP`, the block after it), and
/// pushes 0.
pub open spec fn memory_init_code() -> Seq<VmInstr> {
    seq![
        VmInstr::I32Const((HEAP * 4) as i32),
        VmInstr::I32Const((HEAP * 4 + 4) as i32),
        VmInstr::I32Store(0),
        VmInstr::I32Const((HEAP * 4 + 4) as i32),
        VmInstr::I32Const((16384 - HEAP - 2) as i32),
        VmInstr::I32Store(0),
        VmInstr::I32Const((HEAP * 4 + 8) as i32),
        VmInstr::I32Const(0),
        VmInstr::I32Store(0),
        VmInstr::I32Const(0),
    ]
}

/// Takes a block of the size on the operand stack from the free list (the first that fits
/// exactly, else split off the last one) and pushes its word address.
pub open spec fn alloc_code() -> Seq<VmInstr> {
    seq![
        VmInstr::LocalSet(VmLocal::Temp),
        VmInstr::I32Const((HEAP * 4 - 4) as i32),
        VmInstr::LocalTee(VmLocal::Temp3),
        VmInstr::I32Load(4),
        VmInstr::LocalSet(VmLocal::Temp2),
        VmInstr::Loop,
        VmInstr::LocalGet(VmLocal::Temp2),
        VmInstr::I32Load(0),
        VmInstr::LocalGet(VmLocal::Temp),
        VmInstr::I32Eq,
        VmInstr::If,
        VmInstr::LocalGet(VmLocal::Temp3),
        VmInstr::LocalGet(VmLocal::Temp2),
        VmInstr::I32Load(4),
        VmInstr::I32Store(4),
        VmInstr::Else,
        VmInstr::LocalGet(VmLocal::Temp2),
        VmInstr::I32Load(4),
        VmInstr::I32Eqz,
        VmInstr::If,
        VmInstr::LocalGet(VmLocal::Temp3),
        VmInstr::LocalGet(VmLocal::Temp2),
        VmInstr::LocalGet(VmLocal::Temp),
        VmInstr::I32Const(2),
        VmInstr::I32Shl,
        VmInstr::I32Add,
        VmInstr::LocalTee(VmLocal::Temp3),
        VmInstr::I32Const(4),
        VmInstr::I32Add,
        VmInstr::I32Store(4),
        VmInstr::LocalGet(VmLocal::Temp3),
        VmInstr::LocalGet(VmLocal::Temp2),
        VmInstr::I32Load(0),
        VmInstr::LocalGet(VmLocal::Temp),
        VmInstr::I32Sub,
        VmInstr::I32Const(1),
        VmInstr::I32Sub,
        VmInstr::I32Store(4),
        VmInstr::LocalGet(VmLocal::Temp3),
        VmInstr::I32Const(0),
        VmInstr::I32Store(8),
        VmInstr::LocalGet(VmLocal::Temp2),
        VmInstr::LocalGet(VmLocal::Temp),
        VmInstr::I32Store(0),
        VmInstr::Else,
        VmInstr::LocalGet(VmLocal::Temp2),
        VmInstr::LocalTee(VmLocal::Temp3),
        VmInstr::I32Load(4),
        VmInstr::LocalSet(VmLocal::Temp2),
        VmInstr::Br(VmBranch::AllocContinue),
        VmInstr::End,
        VmInstr::End,
        VmInstr::End,
        VmInstr::LocalGet(VmLocal::Temp2),
        VmInstr::I32Const(2),
        VmInstr::I32ShrU,
        VmInstr::I32Const(1),
        VmInstr::I32Add,
    ]
}

/// Puts the block whose word address is on the operand stack at the head of the free list,
/// and pushes 0.
pub open spec fn dealloc_code() -> Seq<VmInstr> {
    seq![
        VmInstr::I32Const(1),
        VmInstr::I32Sub,
        VmInstr::I32Const(2),
        VmInstr::I32Shl,
        VmInstr::LocalTee(VmLocal::Temp2),
        VmInstr::I32Const((HEAP * 4) as i32),
        VmInstr::I32Load(0),
        VmInstr::I32Store(4),
        VmInstr::I32Const((HEAP * 4) as i32),
        VmInstr::LocalGet(VmLocal::Temp2),
        VmInstr::I32Store(0),
        VmInstr::I32Const(0),
    ]
}

/// Saves LCL, ARG, THIS and THAT in the frame above SP.
pub open spec fn save_frame_code() -> Seq<VmInstr> {
    seq![
        VmInstr::LocalGet(VmLocal::Sp),
        VmInstr::LocalGet(VmLocal::Lcl),
        VmInstr::I32Store(4),
        VmInstr::LocalGet(VmLocal::Sp),
        VmInstr::LocalGet(VmLocal::Arg),
        VmInstr::I32Store(8),
        VmInstr::LocalGet(VmLocal::Sp),
        VmInstr::LocalGet(VmLocal::This),
        VmInstr::I32Store(12),
        VmInstr::LocalGet(VmLocal::Sp),
        VmInstr::LocalGet(VmLocal::That),
        VmInstr::I32Store(16),
    ]
}

/// Returns: the return value (on the operand stack) to argument 0, SP above it, the
/// caller's registers restored from the frame below LCL, and its return address as the jump
/// target.
pub open spec fn return_code(jump: VmBranch) -> Seq<VmInstr> {
    seq![
        VmInstr::LocalSet(VmLocal::Temp2),
        VmInstr::LocalGet(VmLocal::Lcl),
        VmInstr::I32Const(20),
        VmInstr::I32Sub,
        VmInstr::LocalTee(VmLocal::Temp),
        VmInstr::I32Load(0),
        VmInstr::LocalSet(VmLocal::JumpTarget),
        VmInstr::LocalGet(VmLocal::Arg),
        VmInstr::LocalGet(VmLocal::Temp2),
        VmInstr::I32Store(0),
        VmInstr::LocalGet(VmLocal::Arg),
        VmInstr::I32Const(4),
        VmInstr::I32Add,
        VmInstr::LocalSet(VmLocal::Sp),
        VmInstr::LocalGet(VmLocal::Temp),
        VmInstr::I32Load(4),
        VmInstr::LocalSet(VmLocal::Lcl),
        VmInstr::LocalGet(VmLocal::Temp),
        VmInstr::I32Load(8),
        VmInstr::LocalSet(VmLocal::Arg),
        VmInstr::LocalGet(VmLocal::Temp),
        VmInstr::I32Load(12),
        VmInstr::LocalSet(VmLocal::This),
        VmInstr::LocalGet(VmLocal::Temp),
        VmInstr::I32Load(16),
        VmInstr::LocalSet(VmLocal::That),
        VmInstr::Br(jump),
    ]
}

/// The key under which a label of a function is found: `function.label`.
pub open spec fn label_key(function_name: Seq<char>, label: Seq<char>) -> Seq<char> {
    function_name + seq!['.'] + label
}

/// Where a jump goes back to the dispatch loop, sets the jump target to the case of the
/// label.
pub open spec fn label_target_code(
    jump: VmBranch,
    function_name: Option<Seq<char>>,
    label: Seq<char>,
    labels: Map<Seq<char>, i32>,
) -> Seq<VmInstr> {
    if jump is Loop {
        seq![
            VmInstr::I32Const(labels[label_key(function_name.unwrap(), label)]),
            VmInstr::LocalSet(VmLocal::JumpTarget),
        ]
    } else {
        seq![]
    }
}

/// Pushes `count` zero local variables.
pub open spec fn function_code(count: Word) -> Seq<VmInstr> {
    if count == 0 {
        seq![]
    } else if count == 1 {
        seq![
            VmInstr::LocalGet(VmLocal::Sp),
            VmInstr::I32Const(0),
            VmInstr::I32Store(0),
            VmInstr::LocalGet(VmLocal::Sp),
            VmInstr::I32Const(4),
            VmInstr::I32Add,
            VmInstr::LocalSet(VmLocal::Sp),
        ]
    } else {
        seq![
            VmInstr::LocalGet(VmLocal::Sp),
            VmInstr::I32Const(0),
            VmInstr::I32Const((count * 4) as i32),
            VmInstr::MemoryFill,
            VmInstr::LocalGet(VmLocal::Sp),
            VmInstr::I32Const((count * 4) as i32),
            VmInstr::I32Add,
            VmInstr::LocalSet(VmLocal::Sp),
        ]
    }
}

/// A binary operation on the two top values.
pub open spec fn binary_code(kept: nat, op: Seq<VmInstr>) -> (Seq<VmInstr>, nat) {
    (prepare2(kept).0 + op, prepare2(kept).1 + 1)
}

/// A unary operation on the top value.
pub open spec fn unary_code(kept: nat, op: Seq<VmInstr>) -> (Seq<VmInstr>, nat) {
    (prepare1(kept).0 + op, prepare1(kept).1 + 1)
}

/// A call of a function that is compiled in place, or else a real call: the kept values
/// go to RAM, the return case and the caller's registers are saved in a new frame, ARG and
/// LCL are set for the callee, and the code branches to it.
pub open spec fn call_code(
    name: Seq<char>,
    argument_count: Word,
    index: int,
    jump: VmBranch,
    functions: Map<Seq<char>, i32>,
    calls: Map<usize, i32>,
    kept: nat,
) -> (Seq<VmInstr>, nat) {
    if name == "Math.multiply"@ {
        binary_code(kept, seq![VmInstr::I32Mul, VmInstr::I32Extend16S])
    } else if name == "Math.divide"@ {
        binary_code(kept, seq![VmInstr::I32DivS, VmInstr::I32Extend16S])
    } else if name == "Screen.clearScreen"@ {
        (
            seq![
                VmInstr::I32Const(65536),
                VmInstr::I32Const(0),
                VmInstr::I32Const(32768),
                VmInstr::MemoryFill,
                VmInstr::I32Const(0),
            ],
            kept + 1,
        )
    } else if name == "Screen.setColor"@ {
        unary_code(kept, seq![VmInstr::GlobalSet(VmGlobal::ScreenColor), VmInstr::I32Const(0)])
    } else if name == "Screen.drawPixel"@ {
        binary_code(kept, draw_pixel_code())
    } else if name == "Memory.init"@ {
        (memory_init_code(), kept + 1)
    } else if name == "Memory.alloc"@ || name == "Array.new"@ {
        unary_code(kept, alloc_code())
    } else if name == "Memory.deAlloc"@ || name == "Array.dispose"@ {
        unary_code(kept, dealloc_code())
    } else {
        (
            drop_code(kept) + seq![
                VmInstr::LocalGet(VmLocal::Sp),
                VmInstr::I32Const(calls[(index + 1) as usize]),
                VmInstr::I32Store(0),
            ] + save_frame_code() + seq![VmInstr::LocalGet(VmLocal::Sp)] + (if argument_count > 0 {
                seq![VmInstr::I32Const((argument_count * 4) as i32), VmInstr::I32Sub]
            } else {
                seq![]
            }) + seq![
                VmInstr::LocalSet(VmLocal::Arg),
                VmInstr::LocalGet(VmLocal::Sp),
                VmInstr::I32Const(20),
                VmInstr::I32Add,
                VmInstr::LocalTee(VmLocal::Sp),
                VmInstr::LocalSet(VmLocal::Lcl),
            ] + (if jump is Loop {
                seq![VmInstr::I32Const(functions[name]), VmInstr::LocalSet(VmLocal::JumpTarget)]
            } else {
                seq![]
            }) + seq![VmInstr::Br(jump)],
            0,
        )
    }
}

/// The code of a command after the ticks counter, with `kept` values of the VM stack kept
/// on the operand stack before it, and how many are kept after it.
pub open spec fn command_body(
    c: Command,
    index: int,
    jump: VmBranch,
    static_start: Word,
    function_name: Option<Seq<char>>,
    labels: Map<Seq<char>, i32>,
    functions: Map<Seq<char>, i32>,
    calls: Map<usize, i32>,
    kept: nat,
) -> (Seq<VmInstr>, nat) {
    match c {
        Command::Add => binary_code(kept, seq![VmInstr::I32Add, VmInstr::I32Extend16S]),
        Command::Push(segment, offset) => (push_value_code(segment, offset, static_start), kept + 1),
        Command::Pop(segment, offset) => if segment is Pointer {
            (
                prepare1(kept).0 + seq![
                    VmInstr::I32Const(2),
                    VmInstr::I32Shl,
                    VmInstr::LocalSet(if offset == 0 { VmLocal::This } else { VmLocal::That }),
                ],
                prepare1(kept).1,
            )
        } else {
            (
                prepare1(kept).0 + seq![VmInstr::LocalSet(VmLocal::Temp)] + pop_base_code(
                    segment,
                    static_start,
                ) + seq![VmInstr::LocalGet(VmLocal::Temp), VmInstr::I32Store(word_offset(offset as int))],
                prepare1(kept).1,
            )
        },
        Command::Sub => binary_code(kept, seq![VmInstr::I32Sub, VmInstr::I32Extend16S]),
        Command::Neg => unary_code(
            kept,
            seq![
                VmInstr::LocalSet(VmLocal::Temp),
                VmInstr::I32Const(0),
                VmInstr::LocalGet(VmLocal::Temp),
                VmInstr::I32Sub,
                VmInstr::I32Extend16S,
            ],
        ),
        Command::Eq => binary_code(kept, truth_code(VmInstr::I32Eq)),
        Command::Gt => binary_code(kept, truth_code(VmInstr::I32GtS)),
        Command::Lt => binary_code(kept, truth_code(VmInstr::I32LtS)),
        Command::And => binary_code(kept, seq![VmInstr::I32And, VmInstr::I32Extend16S]),
        Command::Or => binary_code(kept, seq![VmInstr::I32Or, VmInstr::I32Extend16S]),
        Command::Not => unary_code(kept, seq![VmInstr::I32Const(-1i32), VmInstr::I32Xor]),
        Command::Label(_) => (seq![], kept),
        Command::Goto(label) => (
            drop_code(kept) + label_target_code(jump, function_name, label, labels) + seq![VmInstr::Br(jump)],
            0,
        ),
        Command::IfGoto(label) => {
            let dropped: nat = if kept > 1 { 0 } else { kept };
            (
                label_target_code(jump, function_name, label, labels) + (if kept > 1 {
                    drop_code(kept)
                } else {
                    seq![]
                }) + prepare1(dropped).0 + seq![
                    VmInstr::I32Const(0),
                    VmInstr::I32Ne,
                    VmInstr::BrIf(jump),
                ],
                prepare1(dropped).1,
            )
        },
        Command::Function(_, count) => (function_code(count), kept),
        Command::Call(name, argument_count) => call_code(name, argument_count, index, jump, functions, calls, kept),
        Command::Return => (prepare1(kept).0 + return_code(jump), prepare1(kept).1),
    }
}

/// A command can be compiled: its word offsets are not negative (and a temp offset names a
/// word), a static address is a word, a pointer offset is 0 or 1, the label of a jump back
/// to the dispatch loop is known in the current function, and a real call has its return
/// case (and, going back to the dispatch loop, its function's case).
pub open spec fn command_compilable(
    c: Command,
    index: int,
    jump: VmBranch,
    static_start: Word,
    function_name: Option<Seq<char>>,
    labels: Map<Seq<char>, i32>,
    functions: Map<Seq<char>, i32>,
    calls: Map<usize, i32>,
    kept: nat,
) -> bool {
    &&& kept <= 0x8000
    &&& match c {
        Command::Push(segment, offset) => match segment {
            PushSegment::Constant => true,
            PushSegment::Static => i16::MIN <= static_start + offset <= i16::MAX,
            PushSegment::Temp => 0 <= offset <= i16::MAX - 5,
            PushSegment::Pointer => offset == 0 || offset == 1,
            _ => offset >= 0,
        },
        Command::Pop(segment, offset) => if segment is Pointer {
            offset == 0 || offset == 1
        } else {
            offset >= 0
        },
        Command::Goto(label) => jump is Loop ==> (function_name is Some && labels.dom().contains(
            label_key(function_name.unwrap(), label),
        )),
        Command::IfGoto(label) => jump is Loop ==> (function_name is Some && labels.dom().contains(
            label_key(function_name.unwrap(), label),
        )),
        Command::Call(name, _) => !(name == "Math.multiply"@ || name == "Math.divide"@ || name
            == "Screen.clearScreen"@ || name == "Screen.setColor"@ || name == "Screen.drawPixel"@
            || name == "Memory.init"@ || name == "Memory.alloc"@ || name == "Array.new"@ || name
            == "Memory.deAlloc"@ || name == "Array.dispose"@) ==> {
            &&& index + 1 <= usize::MAX
            &&& calls.dom().contains((index + 1) as usize)
            &&& jump is Loop ==> functions.dom().contains(name)
        },
        _ => true,
    }
}

/// The name of an optional name.
pub open spec fn name_view(name: Option<&String>) -> Option<Seq<char>> {
    match name {
        Some(s) => Some(s@),
        None => None,
    }
}

/// The key `function.label`.
fn label_key_exec(function_name: &String, label: &String) -> (r: String)
    ensures
        r@ == label_key(function_name@, label@),
{
    let mut key = String::new();
    push_str(&mut key, function_name.as_str());
    push_str(&mut key, ".");
    push_str(&mut key, label.as_str());
    proof {
        reveal_strlit(".");
        assert(key@ =~= label_key(function_name@, label@));
    }
    key
}

fn push_label_target(
    code: &mut Vec<VmInstr>,
    jump: VmBranch,
    function_name: Option<&String>,
    label: &String,
    labels: &NameIndices,
)
    requires
        jump is Loop ==> (name_view(function_name) is Some && labels@.dom().contains(
            label_key(name_view(function_name).unwrap(), label@),
        )),
    ensures
        final(code)@ == old(code)@ + label_target_code(jump, name_view(function_name), label@, labels@),
{
    if let VmBranch::Loop = jump {
        let key = label_key_exec(function_name.unwrap(), label);
        let target = labels.get(key.as_str()).unwrap();
        code.push(VmInstr::I32Const(target));
        code.push(VmInstr::LocalSet(VmLocal::JumpTarget));
    }
}

fn push_function(code: &mut Vec<VmInstr>, local_var_count: Word)
    ensures
        final(code)@ == old(code)@ + function_code(local_var_count),
{
    if local_var_count == 0 {
    } else if local_var_count == 1 {
        let mut part = vec![
            VmInstr::LocalGet(VmLocal::Sp),
            VmInstr::I32Const(0),
            VmInstr::I32Store(0),
            VmInstr::LocalGet(VmLocal::Sp),
            VmInstr::I32Const(4),
            VmInstr::I32Add,
            VmInstr::LocalSet(VmLocal::Sp),
        ];
        code.append(&mut part);
    } else {
        let size = local_var_count as i32 * 4;
        let mut part = vec![
            VmInstr::LocalGet(VmLocal::Sp),
            VmInstr::I32Const(0),
            VmInstr::I32Const(size),
            VmInstr::MemoryFill,
            VmInstr::LocalGet(VmLocal::Sp),
            VmInstr::I32Const(size),
            VmInstr::I32Add,
            VmInstr::LocalSet(VmLocal::Sp),
        ];
        code.append(&mut part);
    }
}

fn push_value(code: &mut Vec<VmInstr>, segment: PushSegment, offset: Word, static_segment_start: Word)
    requires
        match segment {
            PushSegment::Constant => true,
            PushSegment::Static => i16::MIN <= static_segment_start + offset <= i16::MAX,
            PushSegment::Temp => 0 <= offset <= i16::MAX - 5,
            PushSegment::Pointer => offset == 0 || offset == 1,
            _ => offset >= 0,
        },
    ensures
        final(code)@ == old(code)@ + push_value_code(segment, offset, static_segment_start),
{
    let ghost before = code@;
    match segment {
        PushSegment::Constant => {
            code.push(VmInstr::I32Const(offset as i32));
        },
        PushSegment::Static => {
            code.push(VmInstr::I32Const((static_segment_start + offset) as i32 * 4));
            code.push(VmInstr::I32Load(0));
        },
        PushSegment::Local => {
            code.push(VmInstr::LocalGet(VmLocal::Lcl));
            code.push(VmInstr::I32Load(offset as u64 * 4));
        },
        PushSegment::Argument => {
            code.push(VmInstr::LocalGet(VmLocal::Arg));
            code.push(VmInstr::I32Load(offset as u64 * 4));
        },
        PushSegment::This => {
            code.push(VmInstr::LocalGet(VmLocal::This));
            code.push(VmInstr::I32Load(offset as u64 * 4));
        },
        PushSegment::That => {
            code.push(VmInstr::LocalGet(VmLocal::That));
            code.push(VmInstr::I32Load(offset as u64 * 4));
        },
        PushSegment::Temp => {
            code.push(VmInstr::I32Const(Register::TEMP(offset).address() as i32 * 4));
            code.push(VmInstr::I32Load(offset as u64 * 4));
        },
        PushSegment::Pointer => {
            let local = if offset == 0 {
                VmLocal::This
            } else {
                VmLocal::That
            };
            code.push(VmInstr::LocalGet(local));
            code.push(VmInstr::I32Const(2));
            code.push(VmInstr::I32ShrS);
        },
    }
    assert(code@ =~= before + push_value_code(segment, offset, static_segment_start));
}

fn push_pop(
    code: &mut Vec<VmInstr>,
    segment: PopSegment,
    offset: Word,
    static_segment_start: Word,
    stack_size: &mut usize,
)
    requires
        if segment is Pointer {
            offset == 0 || offset == 1
        } else {
            offset >= 0
        },
    ensures
        final(code)@ == old(code)@ + command_body(
            Command::Pop(segment, offset),
            0,
            VmBranch::Loop,
            static_segment_start,
            None,
            Map::empty(),
            Map::empty(),
            Map::empty(),
            *old(stack_size) as nat,
        ).0,
        *final(stack_size) == command_body(
            Command::Pop(segment, offset),
            0,
            VmBranch::Loop,
            static_segment_start,
            None,
            Map::empty(),
            Map::empty(),
            Map::empty(),
            *old(stack_size) as nat,
        ).1,
{
    let ghost before = code@;
    prepare_on_stack1(stack_size, code);
    let ghost prepared = code@;
    if let PopSegment::Pointer = segment {
        let local = if offset == 0 {
            VmLocal::This
        } else {
            VmLocal::That
        };
        code.push(VmInstr::I32Const(2));
        code.push(VmInstr::I32Shl);
        code.push(VmInstr::LocalSet(local));
        assert(code@ =~= prepared + seq![VmInstr::I32Const(2), VmInstr::I32Shl, VmInstr::LocalSet(local)]);
        return;
    }
    code.push(VmInstr::LocalSet(VmLocal::Temp));
    match segment {
        PopSegment::Static => code.push(VmInstr::I32Const(static_segment_start as i32 * 4)),
        PopSegment::Local => code.push(VmInstr::LocalGet(VmLocal::Lcl)),
        PopSegment::Argument => code.push(VmInstr::LocalGet(VmLocal::Arg)),
        PopSegment::This => code.push(VmInstr::LocalGet(VmLocal::This)),
        PopSegment::That => code.push(VmInstr::LocalGet(VmLocal::That)),
        PopSegment::Temp => code.push(VmInstr::I32Const(Register::TEMP(0).address() as i32 * 4)),
        PopSegment::Pointer => {},
    }
    code.push(VmInstr::LocalGet(VmLocal::Temp));
    code.push(VmInstr::I32Store(offset as u64 * 4));
    assert(code@ =~= prepared + seq![VmInstr::LocalSet(VmLocal::Temp)] + pop_base_code(segment, static_segment_start)
        + seq![VmInstr::LocalGet(VmLocal::Temp), VmInstr::I32Store(word_offset(offset as int))]);
}

/// Whether a call is compiled in place.
pub open spec fn inline_call(name: Seq<char>) -> bool {
    name == "Math.multiply"@ || name == "Math.divide"@ || name == "Screen.clearScreen"@ || name
        == "Screen.setColor"@ || name == "Screen.drawPixel"@ || name == "Memory.init"@ || name
        == "Memory.alloc"@ || name == "Array.new"@ || name == "Memory.deAlloc"@ || name
        == "Array.dispose"@
}

fn push_inline_call(code: &mut Vec<VmInstr>, cs: &Vec<char>, stack_size: &mut usize)
    requires
        *old(stack_size) <= 0x8000,
        inline_call(cs@),
    ensures
        final(code)@ == old(code)@ + call_code(
            cs@,
            0,
            0,
            VmBranch::Loop,
            Map::empty(),
            Map::empty(),
            *old(stack_size) as nat,
        ).0,
        *final(stack_size) == call_code(
            cs@,
            0,
            0,
            VmBranch::Loop,
            Map::empty(),
            Map::empty(),
            *old(stack_size) as nat,
        ).1,
{
    if chars_eq_str(cs, "Math.multiply") {
        prepare_on_stack2(stack_size, code);
        code.push(VmInstr::I32Mul);
        code.push(VmInstr::I32Extend16S);
    } else if chars_eq_str(cs, "Math.divide") {
        prepare_on_stack2(stack_size, code);
        code.push(VmInstr::I32DivS);
        code.push(VmInstr::I32Extend16S);
    } else if chars_eq_str(cs, "Screen.clearScreen") {
        let mut part = vec![
            VmInstr::I32Const(RAM_SCREEN_BYTES),
            VmInstr::I32Const(0),
            VmInstr::I32Const(SCREEN_BYTES),
            VmInstr::MemoryFill,
            VmInstr::I32Const(0),
        ];
        code.append(&mut part);
    } else if chars_eq_str(cs, "Screen.setColor") {
        prepare_on_stack1(stack_size, code);
        code.push(VmInstr::GlobalSet(VmGlobal::ScreenColor));
        code.push(VmInstr::I32Const(0));
    } else if chars_eq_str(cs, "Screen.drawPixel") {
        prepare_on_stack2(stack_size, code);
        let mut part = draw_pixel_exec();
        code.append(&mut part);
    } else if chars_eq_str(cs, "Memory.init") {
        let mut part = memory_init_exec();
        code.append(&mut part);
    } else if chars_eq_str(cs, "Memory.alloc") || chars_eq_str(cs, "Array.new") {
        prepare_on_stack1(stack_size, code);
        let mut part = alloc_exec();
        code.append(&mut part);
    } else {
        prepare_on_stack1(stack_size, code);
        let mut part = dealloc_exec();
        code.append(&mut part);
    }
    *stack_size = *stack_size + 1;
}

#[verifier::rlimit(40)]
fn push_real_call(
    code: &mut Vec<VmInstr>,
    function_name: &String,
    argument_count: Word,
    index: usize,
    jump_index: VmBranch,
    function_indices: &NameIndices,
    call_indices: &CommandIndices,
    stack_size: &mut usize,
)
    requires
        *old(stack_size) <= 0x8000,
        !inline_call(function_name@),
        index + 1 <= usize::MAX,
        call_indices@.dom().contains((index + 1) as usize),
        jump_index is Loop ==> function_indices@.dom().contains(function_name@),
    ensures
        final(code)@ == old(code)@ + call_code(
            function_name@,
            argument_count,
            index as int,
            jump_index,
            function_indices@,
            call_indices@,
            *old(stack_size) as nat,
        ).0,
        *final(stack_size) == 0,
{
    let ghost before = code@;
    let ghost kept = *stack_size as nat;
    drop_stack_to_ram(stack_size, code);
    let ghost dropped = code@;
    let return_case = call_indices.get(index + 1).unwrap();
    code.push(VmInstr::LocalGet(VmLocal::Sp));
    code.push(VmInstr::I32Const(return_case));
    code.push(VmInstr::I32Store(0));
    let mut frame = save_frame_exec();
    code.append(&mut frame);
    code.push(VmInstr::LocalGet(VmLocal::Sp));
    let ghost args_before = code@;
    if argument_count > 0 {
        code.push(VmInstr::I32Const(argument_count as i32 * 4));
        code.push(VmInstr::I32Sub);
    }
    let ghost args_after = code@;
    code.push(VmInstr::LocalSet(VmLocal::Arg));
    code.push(VmInstr::LocalGet(VmLocal::Sp));
    code.push(VmInstr::I32Const(20));
    code.push(VmInstr::I32Add);
    code.push(VmInstr::LocalTee(VmLocal::Sp));
    code.push(VmInstr::LocalSet(VmLocal::Lcl));
    let ghost target_before = code@;
    if let VmBranch::Loop = jump_index {
        let function_case = function_indices.get(function_name.as_str()).unwrap();
        code.push(VmInstr::I32Const(function_case));
        code.push(VmInstr::LocalSet(VmLocal::JumpTarget));
    }
    let ghost target_after = code@;
    code.push(VmInstr::Br(jump_index));
    proof {
        assert(args_after =~= args_before + (if argument_count > 0 {
            seq![VmInstr::I32Const((argument_count * 4) as i32), VmInstr::I32Sub]
        } else {
            seq![]
        }));
        assert(target_after =~= target_before + (if jump_index is Loop {
            seq![VmInstr::I32Const(function_indices@[function_name@]), VmInstr::LocalSet(VmLocal::JumpTarget)]
        } else {
            seq![]
        }));
        assert(code@ =~= before + call_code(
            function_name@,
            argument_count,
            index as int,
            jump_index,
            function_indices@,
            call_indices@,
            kept,
        ).0);
    }
}

fn draw_pixel_exec() -> (v: Vec<VmInstr>)
    ensures
        v@ == draw_pixel_code(),
{
    vec![
        VmInstr::I32Const(128),
        VmInstr::I32Mul,
        VmInstr::I32Const(65536),
        VmInstr::I32Add,
        VmInstr::LocalSet(VmLocal::Temp),
        VmInstr::LocalTee(VmLocal::Temp2),
        VmInstr::I32Const(4),
        VmInstr::I32ShrU,
        VmInstr::I32Const(2),
        VmInstr::I32Shl,
        VmInstr::LocalGet(VmLocal::Temp),
        VmInstr::I32Add,
        VmInstr::LocalTee(VmLocal::Temp),
        VmInstr::LocalGet(VmLocal::Temp),
        VmInstr::I32Load(0),
        VmInstr::I32Const(1),
        VmInstr::LocalGet(VmLocal::Temp2),
        VmInstr::I32Const(15),
        VmInstr::I32And,
        VmInstr::I32Shl,
        VmInstr::LocalTee(VmLocal::Temp2),
        VmInstr::I32Const(-1i32),
        VmInstr::I32Xor,
        VmInstr::I32And,
        VmInstr::GlobalGet(VmGlobal::ScreenColor),
        VmInstr::LocalGet(VmLocal::Temp2),
        VmInstr::I32And,
        VmInstr::I32Or,
        VmInstr::I32Extend16S,
        VmInstr::I32Store(0),
        VmInstr::I32Const(0),
    ]
}

fn memory_init_exec() -> (v: Vec<VmInstr>)
    ensures
        v@ == memory_init_code(),
{
    let heap_bytes: i32 = HEAP as i32 * 4;
    let block_size: i32 = 16384 - HEAP as i32 - 2;
    vec![
        VmInstr::I32Const(heap_bytes),
        VmInstr::I32Const(heap_bytes + 4),
        VmInstr::I32Store(0),
        VmInstr::I32Const(heap_bytes + 4),
        VmInstr::I32Const(block_size),
        VmInstr::I32Store(0),
        VmInstr::I32Const(heap_bytes + 8),
        VmInstr::I32Const(0),
        VmInstr::I32Store(0),
        VmInstr::I32Const(0),
    ]
}

fn alloc_exec() -> (v: Vec<VmInstr>)
    ensures
        v@ == alloc_code(),
{
    let heap_bytes: i32 = HEAP as i32 * 4;
    vec![
        VmInstr::LocalSet(VmLocal::Temp),
        VmInstr::I32Const(heap_bytes - 4),
        VmInstr::LocalTee(VmLocal::Temp3),
        VmInstr::I32Load(4),
        VmInstr::LocalSet(VmLocal::Temp2),
        VmInstr::Loop,
        VmInstr::LocalGet(VmLocal::Temp2),
        VmInstr::I32Load(0),
        VmInstr::LocalGet(VmLocal::Temp),
        VmInstr::I32Eq,
        VmInstr::If,
        VmInstr::LocalGet(VmLocal::Temp3),
        VmInstr::LocalGet(VmLocal::Temp2),
        VmInstr::I32Load(4),
        VmInstr::I32Store(4),
        VmInstr::Else,
        VmInstr::LocalGet(VmLocal::Temp2),
        VmInstr::I32Load(4),
        VmInstr::I32Eqz,
        VmInstr::If,
        VmInstr::LocalGet(VmLocal::Temp3),
        VmInstr::LocalGet(VmLocal::Temp2),
        VmInstr::LocalGet(VmLocal::Temp),
        VmInstr::I32Const(2),
        VmInstr::I32Shl,
        VmInstr::I32Add,
        VmInstr::LocalTee(VmLocal::Temp3),
        VmInstr::I32Const(4),
        VmInstr::I32Add,
        VmInstr::I32Store(4),
        VmInstr::LocalGet(VmLocal::Temp3),
        VmInstr::LocalGet(VmLocal::Temp2),
        VmInstr::I32Load(0),
        VmInstr::LocalGet(VmLocal::Temp),
        VmInstr::I32Sub,
        VmInstr::I32Const(1),
        VmInstr::I32Sub,
        VmInstr::I32Store(4),
        VmInstr::LocalGet(VmLocal::Temp3),
        VmInstr::I32Const(0),
        VmInstr::I32Store(8),
        VmInstr::LocalGet(VmLocal::Temp2),
        VmInstr::LocalGet(VmLocal::Temp),
        VmInstr::I32Store(0),
        VmInstr::Else,
        VmInstr::LocalGet(VmLocal::Temp2),
        VmInstr::LocalTee(VmLocal::Temp3),
        VmInstr::I32Load(4),
        VmInstr::LocalSet(VmLocal::Temp2),
        VmInstr::Br(VmBranch::AllocContinue),
        VmInstr::End,
        VmInstr::End,
        VmInstr::End,
        VmInstr::LocalGet(VmLocal::Temp2),
        VmInstr::I32Const(2),
        VmInstr::I32ShrU,
        VmInstr::I32Const(1),
        VmInstr::I32Add,
    ]
}

fn dealloc_exec() -> (v: Vec<VmInstr>)
    ensures
        v@ == dealloc_code(),
{
    let heap_bytes: i32 = HEAP as i32 * 4;
    vec![
        VmInstr::I32Const(1),
        VmInstr::I32Sub,
        VmInstr::I32Const(2),
        VmInstr::I32Shl,
        VmInstr::LocalTee(VmLocal::Temp2),
        VmInstr::I32Const(heap_bytes),
        VmInstr::I32Load(0),
        VmInstr::I32Store(4),
        VmInstr::I32Const(heap_bytes),
        VmInstr::LocalGet(VmLocal::Temp2),
        VmInstr::I32Store(0),
        VmInstr::I32Const(0),
    ]
}

fn save_frame_exec() -> (v: Vec<VmInstr>)
    ensures
        v@ == save_frame_code(),
{
    vec![
        VmInstr::LocalGet(VmLocal::Sp),
        VmInstr::LocalGet(VmLocal::Lcl),
        VmInstr::I32Store(4),
        VmInstr::LocalGet(VmLocal::Sp),
        VmInstr::LocalGet(VmLocal::Arg),
        VmInstr::I32Store(8),
        VmInstr::LocalGet(VmLocal::Sp),
        VmInstr::LocalGet(VmLocal::This),
        VmInstr::I32Store(12),
        VmInstr::LocalGet(VmLocal::Sp),
        VmInstr::LocalGet(VmLocal::That),
        VmInstr::I32Store(16),
    ]
}

fn push_truth(code: &mut Vec<VmInstr>, compare: VmInstr)
    ensures
        final(code)@ == old(code)@ + truth_code(compare),
{
    let mut part = vec![
        compare,
        VmInstr::LocalSet(VmLocal::Temp),
        VmInstr::I32Const(0),
        VmInstr::LocalGet(VmLocal::Temp),
        VmInstr::I32Sub,
    ];
    code.append(&mut part);
}

fn is_inline_call(cs: &Vec<char>) -> (r: bool)
    ensures
        r == inline_call(cs@),
{
    chars_eq_str(cs, "Math.multiply") || chars_eq_str(cs, "Math.divide") || chars_eq_str(
        cs,
        "Screen.clearScreen",
    ) || chars_eq_str(cs, "Screen.setColor") || chars_eq_str(cs, "Screen.drawPixel")
        || chars_eq_str(cs, "Memory.init") || chars_eq_str(cs, "Memory.alloc") || chars_eq_str(
        cs,
        "Array.new",
    ) || chars_eq_str(cs, "Memory.deAlloc") || chars_eq_str(cs, "Array.dispose")
}

fn return_exec(jump: VmBranch) -> (v: Vec<VmInstr>)
    ensures
        v@ == return_code(jump),
{
    vec![
        VmInstr::LocalSet(VmLocal::Temp2),
        VmInstr::LocalGet(VmLocal::Lcl),
        VmInstr::I32Const(20),
        VmInstr::I32Sub,
        VmInstr::LocalTee(VmLocal::Temp),
        VmInstr::I32Load(0),
        VmInstr::LocalSet(VmLocal::JumpTarget),
        VmInstr::LocalGet(VmLocal::Arg),
        VmInstr::LocalGet(VmLocal::Temp2),
        VmInstr::I32Store(0),
        VmInstr::LocalGet(VmLocal::Arg),
        VmInstr::I32Const(4),
        VmInstr::I32Add,
        VmInstr::LocalSet(VmLocal::Sp),
        VmInstr::LocalGet(VmLocal::Temp),
        VmInstr::I32Load(4),
        VmInstr::LocalSet(VmLocal::Lcl),
        VmInstr::LocalGet(VmLocal::Temp),
        VmInstr::I32Load(8),
        VmInstr::LocalSet(VmLocal::Arg),
        VmInstr::LocalGet(VmLocal::Temp),
        VmInstr::I32Load(12),
        VmInstr::LocalSet(VmLocal::This),
        VmInstr::LocalGet(VmLocal::Temp),
        VmInstr::I32Load(16),
        VmInstr::LocalSet(VmLocal::That),
        VmInstr::Br(jump),
    ]
}

/// Compiles one VM command to WebAssembly, keeping the top values of the VM stack on the
/// operand stack where it can (`stack_size` of them before and after): the ticks counter goes
/// up, arithmetic works on the operand stack, pushes and pops read and write the segments
/// in memory, jumps and calls first move the kept values to RAM and branch to `jump_index`
/// (setting the jump target where that is the dispatch loop), some operating system
/// functions are compiled in place, and a return restores the caller's frame.
pub fn command_to_wasm2(
    command: &VMCommand,
    index: usize,
    jump_index: VmBranch,
    static_segment_start: Word,
    current_function_name: Option<&String>,
    label_indices: &NameIndices,
    function_indices: &NameIndices,
    call_indices: &CommandIndices,
    stack_size: &mut usize,
) -> (code: Vec<VmInstr>)
    requires
        command_compilable(
            command@,
            index as int,
            jump_index,
            static_segment_start,
            name_view(current_function_name),
            label_indices@,
            function_indices@,
            call_indices@,
            *old(stack_size) as nat,
        ),
    ensures
        code@ == vm_tick_code() + command_body(
            command@,
            index as int,
            jump_index,
            static_segment_start,
            name_view(current_function_name),
            label_indices@,
            function_indices@,
            call_indices@,
            *old(stack_size) as nat,
        ).0,
        *final(stack_size) == command_body(
            command@,
            index as int,
            jump_index,
            static_segment_start,
            name_view(current_function_name),
            label_indices@,
            function_indices@,
            call_indices@,
            *old(stack_size) as nat,
        ).1,
{
    let ghost kept = *stack_size as nat;
    let mut code: Vec<VmInstr> = vec![
        VmInstr::I32Const(1),
        VmInstr::LocalGet(VmLocal::Ticks),
        VmInstr::I32Add,
        VmInstr::LocalSet(VmLocal::Ticks),
    ];
    let ghost start = code@;
    match command {
        VMCommand::Add => {
            prepare_on_stack2(stack_size, &mut code);
            code.push(VmInstr::I32Add);
            code.push(VmInstr::I32Extend16S);
            *stack_size = *stack_size + 1;
        },
        VMCommand::Push { segment, offset } => {
            *stack_size = *stack_size + 1;
            push_value(&mut code, *segment, *offset, static_segment_start);
        },
        VMCommand::Pop { segment, offset } => {
            push_pop(&mut code, *segment, *offset, static_segment_start, stack_size);
        },
        VMCommand::Sub => {
            prepare_on_stack2(stack_size, &mut code);
            code.push(VmInstr::I32Sub);
            code.push(VmInstr::I32Extend16S);
            *stack_size = *stack_size + 1;
        },
        VMCommand::Neg => {
            prepare_on_stack1(stack_size, &mut code);
            let mut part = vec![
                VmInstr::LocalSet(VmLocal::Temp),
                VmInstr::I32Const(0),
                VmInstr::LocalGet(VmLocal::Temp),
                VmInstr::I32Sub,
                VmInstr::I32Extend16S,
            ];
            code.append(&mut part);
            *stack_size = *stack_size + 1;
        },
        VMCommand::Eq => {
            prepare_on_stack2(stack_size, &mut code);
            push_truth(&mut code, VmInstr::I32Eq);
            *stack_size = *stack_size + 1;
        },
        VMCommand::Gt => {
            prepare_on_stack2(stack_size, &mut code);
            push_truth(&mut code, VmInstr::I32GtS);
            *stack_size = *stack_size + 1;
        },
        VMCommand::Lt => {
            prepare_on_stack2(stack_size, &mut code);
            push_truth(&mut code, VmInstr::I32LtS);
            *stack_size = *stack_size + 1;
        },
        VMCommand::And => {
            prepare_on_stack2(stack_size, &mut code);
            code.push(VmInstr::I32And);
            code.push(VmInstr::I32Extend16S);
            *stack_size = *stack_size + 1;
        },
        VMCommand::Or => {
            prepare_on_stack2(stack_size, &mut code);
            code.push(VmInstr::I32Or);
            code.push(VmInstr::I32Extend16S);
            *stack_size = *stack_size + 1;
        },
        VMCommand::Not => {
            prepare_on_stack1(stack_size, &mut code);
            code.push(VmInstr::I32Const(-1));
            code.push(VmInstr::I32Xor);
            *stack_size = *stack_size + 1;
        },
        VMCommand::Label { .. } => {},
        VMCommand::Goto { label_name } => {
            drop_stack_to_ram(stack_size, &mut code);
            push_label_target(&mut code, jump_index, current_function_name, label_name, label_indices);
            code.push(VmInstr::Br(jump_index));
        },
        VMCommand::IfGoto { label_name } => {
            push_label_target(&mut code, jump_index, current_function_name, label_name, label_indices);
            if *stack_size > 1 {
                drop_stack_to_ram(stack_size, &mut code);
            }
            prepare_on_stack1(stack_size, &mut code);
            code.push(VmInstr::I32Const(0));
            code.push(VmInstr::I32Ne);
            code.push(VmInstr::BrIf(jump_index));
        },
        VMCommand::Function { local_var_count, .. } => {
            push_function(&mut code, *local_var_count);
        },
        VMCommand::Call { function_name, argument_count } => {
            let cs = str_chars(function_name.as_str());
            if is_inline_call(&cs) {
                push_inline_call(&mut code, &cs, stack_size);
            } else {
                push_real_call(
                    &mut code,
                    function_name,
                    *argument_count,
                    index,
                    jump_index,
                    function_indices,
                    call_indices,
                    stack_size,
                );
            }
        },
        VMCommand::Return => {
            prepare_on_stack1(stack_size, &mut code);
            let mut part = return_exec(jump_index);
            code.append(&mut part);
        },
    }
    code
}

/// How many operands an instruction pops and how many results it pushes (an unconditional
/// branch pops and pushes nothing, as the code after it in a case never runs).
pub open spec fn stack_effect(i: VmInstr) -> (int, int) {
    match i {
        VmInstr::I32Const(_) => (0, 1),
        VmInstr::LocalGet(_) => (0, 1),
        VmInstr::GlobalGet(_) => (0, 1),
        VmInstr::LocalSet(_) => (1, 0),
        VmInstr::GlobalSet(_) => (1, 0),
        VmInstr::LocalTee(_) => (1, 1),
        VmInstr::I32Load(_) => (1, 1),
        VmInstr::I32Store(_) => (2, 0),
        VmInstr::I32Eqz => (1, 1),
        VmInstr::I32Extend16S => (1, 1),
        VmInstr::MemoryFill => (3, 0),
        VmInstr::Block => (0, 0),
        VmInstr::Loop => (0, 0),
        VmInstr::If => (1, 0),
        VmInstr::Else => (0, 0),
        VmInstr::End => (0, 0),
        VmInstr::Br(_) => (0, 0),
        VmInstr::BrIf(_) => (1, 0),
        VmInstr::BrTable(_) => (1, 0),
        VmInstr::Return => (0, 0),
        VmInstr::Unreachable => (0, 0),
        _ => (2, 1),
    }
}

/// The operand stack depth after one more instruction; `None` where it would pop a missing
/// operand.
pub open spec fn after_instr(depth: Option<int>, i: VmInstr) -> Option<int> {
    match depth {
        Some(e) => if e >= stack_effect(i).0 {
            Some(e - stack_effect(i).0 + stack_effect(i).1)
        } else {
            None
        },
        None => None,
    }
}

/// The operand stack depth after `code` from instruction `i` on, from depth `d`; `None`
/// where it would pop a missing operand.
pub open spec fn depth_from(code: Seq<VmInstr>, i: int, d: int) -> Option<int>
    decreases code.len() - i,
{
    if i < 0 || i >= code.len() {
        Some(d)
    } else {
        match after_instr(Some(d), code[i]) {
            None => None,
            Some(e) => depth_from(code, i + 1, e),
        }
    }
}

/// The operand stack depth after `code` from depth `d`.
pub open spec fn code_depth(code: Seq<VmInstr>, d: int) -> Option<int> {
    depth_from(code, 0, d)
}

/// Goes on from a depth with more code.
pub open spec fn then_depth(r: Option<int>, code: Seq<VmInstr>) -> Option<int> {
    match r {
        Some(e) => code_depth(code, e),
        None => None,
    }
}

proof fn lemma_depth_suffix(a: Seq<VmInstr>, b: Seq<VmInstr>, j: int, d: int)
    requires
        0 <= j <= b.len(),
    ensures
        depth_from(a + b, a.len() + j, d) == depth_from(b, j, d),
    decreases b.len() - j,
{
    if j < b.len() {
        assert((a + b)[a.len() + j] == b[j]);
        if let Some(e) = after_instr(Some(d), b[j]) {
            lemma_depth_suffix(a, b, j + 1, e);
        }
    }
}

proof fn lemma_depth_prefix(a: Seq<VmInstr>, b: Seq<VmInstr>, i: int, d: int)
    requires
        0 <= i <= a.len(),
    ensures
        depth_from(a + b, i, d) == then_depth(depth_from(a, i, d), b),
    decreases a.len() - i,
{
    if i == a.len() {
        lemma_depth_suffix(a, b, 0, d);
    } else {
        assert((a + b)[i] == a[i]);
        if let Some(e) = after_instr(Some(d), a[i]) {
            lemma_depth_prefix(a, b, i + 1, e);
        }
    }
}

/// The depth after `a + b` is the depth after `b` from the depth after `a`.
pub broadcast proof fn lemma_depth_concat(a: Seq<VmInstr>, b: Seq<VmInstr>, d: int)
    ensures
        #[trigger] code_depth(a + b, d) == then_depth(code_depth(a, d), b),
{
    lemma_depth_prefix(a, b, 0, d);
}

proof fn lemma_drop_depth(kept: nat, i: nat, d: int)
    requires
        i <= kept,
        d >= kept - i,
    ensures
        code_depth(drop_stores(kept, i), d) == Some(d - (kept - i)),
    decreases kept - i,
{
    if i < kept {
        let chunk = seq![
            VmInstr::LocalSet(VmLocal::Temp),
            VmInstr::LocalGet(VmLocal::Sp),
            VmInstr::LocalGet(VmLocal::Temp),
            VmInstr::I32Store(word_offset(kept - i - 1)),
        ];
        lemma_depth_concat(chunk, drop_stores(kept, i + 1), d);
        reveal_with_fuel(depth_from, 5);
        assert(code_depth(chunk, d) == Some(d - 1));
        lemma_drop_depth(kept, i + 1, d - 1);
    } else {
        assert(drop_stores(kept, i) =~= Seq::<VmInstr>::empty());
    }
}

/// Moving the kept values to RAM empties the operand stack.
#[verifier::spinoff_prover]
#[verifier::rlimit(40)]
proof fn lemma_drop_code_depth(kept: nat)
    ensures
        code_depth(drop_code(kept), kept as int) == Some(0int),
{
    lemma_drop_depth(kept, 0, kept as int);
    let tail = if kept > 0 {
        seq![
            VmInstr::LocalGet(VmLocal::Sp),
            VmInstr::I32Const((kept * 4) as i32),
            VmInstr::I32Add,
            VmInstr::LocalSet(VmLocal::Sp),
        ]
    } else {
        seq![]
    };
    lemma_depth_concat(drop_stores(kept, 0), tail, kept as int);
    reveal_with_fuel(depth_from, 5);
}

#[verifier::spinoff_prover]
proof fn lemma_prepare_depth(kept: nat)
    ensures
        code_depth(prepare1(kept).0, kept as int) == Some((prepare1(kept).1 + 1) as int),
        code_depth(prepare2(kept).0, kept as int) == Some((prepare2(kept).1 + 2) as int),
{
    let k = kept as int;
    let c1 = prepare1(kept).0;
    if kept == 0 {
        assert(depth_from(c1, 5, 1) == Some(1int));
        assert(depth_from(c1, 4, 1) == Some(1int));
        assert(depth_from(c1, 3, 1) == Some(1int));
        assert(depth_from(c1, 2, 2) == Some(1int));
        assert(depth_from(c1, 1, 1) == Some(1int));
        assert(depth_from(c1, 0, 0) == Some(1int));
    } else {
        assert(depth_from(c1, 0, k) == Some(k));
    }
    let c2 = prepare2(kept).0;
    if kept == 0 {
        assert(depth_from(c2, 7, 2) == Some(2int));
        assert(depth_from(c2, 6, 2) == Some(2int));
        assert(depth_from(c2, 5, 1) == Some(2int));
        assert(depth_from(c2, 4, 1) == Some(2int));
        assert(depth_from(c2, 3, 1) == Some(2int));
        assert(depth_from(c2, 2, 2) == Some(2int));
        assert(depth_from(c2, 1, 1) == Some(2int));
        assert(depth_from(c2, 0, 0) == Some(2int));
    } else if kept == 1 {
        assert(depth_from(c2, 7, 2) == Some(2int));
        assert(depth_from(c2, 6, 1) == Some(2int));
        assert(depth_from(c2, 5, 1) == Some(2int));
        assert(depth_from(c2, 4, 1) == Some(2int));
        assert(depth_from(c2, 3, 2) == Some(2int));
        assert(depth_from(c2, 2, 1) == Some(2int));
        assert(depth_from(c2, 1, 0) == Some(2int));
        assert(depth_from(c2, 0, 1) == Some(2int));
    } else {
        assert(depth_from(c2, 0, k) == Some(k));
    }
}

proof fn lemma_draw_pixel_depth(d: int)
    requires
        d >= 2,
    ensures
        code_depth(draw_pixel_code(), d) == Some(d - 1),
{
    let code = draw_pixel_code();
    assert(depth_from(code, 31, d - 1) == Some(d - 1));
    assert(depth_from(code, 30, d - 2) == Some(d - 1));
    assert(depth_from(code, 29, d + 0) == Some(d - 1));
    assert(depth_from(code, 28, d + 0) == Some(d - 1));
    assert(depth_from(code, 27, d + 1) == Some(d - 1));
    assert(depth_from(code, 26, d + 2) == Some(d - 1));
    assert(depth_from(code, 25, d + 1) == Some(d - 1));
    assert(depth_from(code, 24, d + 0) == Some(d - 1));
    assert(depth_from(code, 23, d + 1) == Some(d - 1));
    assert(depth_from(code, 22, d + 2) == Some(d - 1));
    assert(depth_from(code, 21, d + 1) == Some(d - 1));
    assert(depth_from(code, 20, d + 1) == Some(d - 1));
    assert(depth_from(code, 19, d + 2) == Some(d - 1));
    assert(depth_from(code, 18, d + 3) == Some(d - 1));
    assert(depth_from(code, 17, d + 2) == Some(d - 1));
    assert(depth_from(code, 16, d + 1) == Some(d - 1));
    assert(depth_from(code, 15, d + 0) == Some(d - 1));
    assert(depth_from(code, 14, d + 0) == Some(d - 1));
    assert(depth_from(code, 13, d - 1) == Some(d - 1));
    assert(depth_from(code, 12, d - 1) == Some(d - 1));
    assert(depth_from(code, 11, d + 0) == Some(d - 1));
    assert(depth_from(code, 10, d - 1) == Some(d - 1));
    assert(depth_from(code, 9, d + 0) == Some(d - 1));
    assert(depth_from(code, 8, d - 1) == Some(d - 1));
    assert(depth_from(code, 7, d + 0) == Some(d - 1));
    assert(depth_from(code, 6, d - 1) == Some(d - 1));
    assert(depth_from(code, 5, d - 1) == Some(d - 1));
    assert(depth_from(code, 4, d + 0) == Some(d - 1));
    assert(depth_from(code, 3, d + 1) == Some(d - 1));
    assert(depth_from(code, 2, d + 0) == Some(d - 1));
    assert(depth_from(code, 1, d + 1) == Some(d - 1));
    assert(depth_from(code, 0, d + 0) == Some(d - 1));
}

proof fn lemma_memory_init_depth(d: int)
    requires
        d >= 0,
    ensures
        code_depth(memory_init_code(), d) == Some(d + 1),
{
    let code = memory_init_code();
    assert(depth_from(code, 10, d + 1) == Some(d + 1));
    assert(depth_from(code, 9, d + 0) == Some(d + 1));
    assert(depth_from(code, 8, d + 2) == Some(d + 1));
    assert(depth_from(code, 7, d + 1) == Some(d + 1));
    assert(depth_from(code, 6, d + 0) == Some(d + 1));
    assert(depth_from(code, 5, d + 2) == Some(d + 1));
    assert(depth_from(code, 4, d + 1) == Some(d + 1));
    assert(depth_from(code, 3, d + 0) == Some(d + 1));
    assert(depth_from(code, 2, d + 2) == Some(d + 1));
    assert(depth_from(code, 1, d + 1) == Some(d + 1));
    assert(depth_from(code, 0, d + 0) == Some(d + 1));
}

proof fn lemma_alloc_depth(d: int)
    requires
        d >= 1,
    ensures
        code_depth(alloc_code(), d) == Some(d + 0),
{
    let code = alloc_code();
    assert(depth_from(code, 58, d + 0) == Some(d + 0));
    assert(depth_from(code, 57, d + 1) == Some(d + 0));
    assert(depth_from(code, 56, d + 0) == Some(d + 0));
    assert(depth_from(code, 55, d + 1) == Some(d + 0));
    assert(depth_from(code, 54, d + 0) == Some(d + 0));
    assert(depth_from(code, 53, d - 1) == Some(d + 0));
    assert(depth_from(code, 52, d - 1) == Some(d + 0));
    assert(depth_from(code, 51, d - 1) == Some(d + 0));
    assert(depth_from(code, 50, d - 1) == Some(d + 0));
    assert(depth_from(code, 49, d - 1) == Some(d + 0));
    assert(depth_from(code, 48, d + 0) == Some(d + 0));
    assert(depth_from(code, 47, d + 0) == Some(d + 0));
    assert(depth_from(code, 46, d + 0) == Some(d + 0));
    assert(depth_from(code, 45, d - 1) == Some(d + 0));
    assert(depth_from(code, 44, d - 1) == Some(d + 0));
    assert(depth_from(code, 43, d + 1) == Some(d + 0));
    assert(depth_from(code, 42, d + 0) == Some(d + 0));
    assert(depth_from(code, 41, d - 1) == Some(d + 0));
    assert(depth_from(code, 40, d + 1) == Some(d + 0));
    assert(depth_from(code, 39, d + 0) == Some(d + 0));
    assert(depth_from(code, 38, d - 1) == Some(d + 0));
    assert(depth_from(code, 37, d + 1) == Some(d + 0));
    assert(depth_from(code, 36, d + 2) == Some(d + 0));
    assert(depth_from(code, 35, d + 1) == Some(d + 0));
    assert(depth_from(code, 34, d + 2) == Some(d + 0));
    assert(depth_from(code, 33, d + 1) == Some(d + 0));
    assert(depth_from(code, 32, d + 1) == Some(d + 0));
    assert(depth_from(code, 31, d + 0) == Some(d + 0));
    assert(depth_from(code, 30, d - 1) == Some(d + 0));
    assert(depth_from(code, 29, d + 1) == Some(d + 0));
    assert(depth_from(code, 28, d + 2) == Some(d + 0));
    assert(depth_from(code, 27, d + 1) == Some(d + 0));
    assert(depth_from(code, 26, d + 1) == Some(d + 0));
    assert(depth_from(code, 25, d + 2) == Some(d + 0));
    assert(depth_from(code, 24, d + 3) == Some(d + 0));
    assert(depth_from(code, 23, d + 2) == Some(d + 0));
    assert(depth_from(code, 22, d + 1) == Some(d + 0));
    assert(depth_from(code, 21, d + 0) == Some(d + 0));
    assert(depth_from(code, 20, d - 1) == Some(d + 0));
    assert(depth_from(code, 19, d + 0) == Some(d + 0));
    assert(depth_from(code, 18, d + 0) == Some(d + 0));
    assert(depth_from(code, 17, d + 0) == Some(d + 0));
    assert(depth_from(code, 16, d - 1) == Some(d + 0));
    assert(depth_from(code, 15, d - 1) == Some(d + 0));
    assert(depth_from(code, 14, d + 1) == Some(d + 0));
    assert(depth_from(code, 13, d + 1) == Some(d + 0));
    assert(depth_from(code, 12, d + 0) == Some(d + 0));
    assert(depth_from(code, 11, d - 1) == Some(d + 0));
    assert(depth_from(code, 10, d + 0) == Some(d + 0));
    assert(depth_from(code, 9, d + 1) == Some(d + 0));
    assert(depth_from(code, 8, d + 0) == Some(d + 0));
    assert(depth_from(code, 7, d + 0) == Some(d + 0));
    assert(depth_from(code, 6, d - 1) == Some(d + 0));
    assert(depth_from(code, 5, d - 1) == Some(d + 0));
    assert(depth_from(code, 4, d + 0) == Some(d + 0));
    assert(depth_from(code, 3, d + 0) == Some(d + 0));
    assert(depth_from(code, 2, d + 0) == Some(d + 0));
    assert(depth_from(code, 1, d - 1) == Some(d + 0));
    assert(depth_from(code, 0, d + 0) == Some(d + 0));
}

proof fn lemma_dealloc_depth(d: int)
    requires
        d >= 1,
    ensures
        code_depth(dealloc_code(), d) == Some(d + 0),
{
    let code = dealloc_code();
    assert(depth_from(code, 12, d + 0) == Some(d + 0));
    assert(depth_from(code, 11, d - 1) == Some(d + 0));
    assert(depth_from(code, 10, d + 1) == Some(d + 0));
    assert(depth_from(code, 9, d + 0) == Some(d + 0));
    assert(depth_from(code, 8, d - 1) == Some(d + 0));
    assert(depth_from(code, 7, d + 1) == Some(d + 0));
    assert(depth_from(code, 6, d + 1) == Some(d + 0));
    assert(depth_from(code, 5, d + 0) == Some(d + 0));
    assert(depth_from(code, 4, d + 0) == Some(d + 0));
    assert(depth_from(code, 3, d + 1) == Some(d + 0));
    assert(depth_from(code, 2, d + 0) == Some(d + 0));
    assert(depth_from(code, 1, d + 1) == Some(d + 0));
    assert(depth_from(code, 0, d + 0) == Some(d + 0));
}

proof fn lemma_save_frame_depth(d: int)
    requires
        d >= 0,
    ensures
        code_depth(save_frame_code(), d) == Some(d + 0),
{
    let code = save_frame_code();
    assert(depth_from(code, 12, d + 0) == Some(d + 0));
    assert(depth_from(code, 11, d + 2) == Some(d + 0));
    assert(depth_from(code, 10, d + 1) == Some(d + 0));
    assert(depth_from(code, 9, d + 0) == Some(d + 0));
    assert(depth_from(code, 8, d + 2) == Some(d + 0));
    assert(depth_from(code, 7, d + 1) == Some(d + 0));
    assert(depth_from(code, 6, d + 0) == Some(d + 0));
    assert(depth_from(code, 5, d + 2) == Some(d + 0));
    assert(depth_from(code, 4, d + 1) == Some(d + 0));
    assert(depth_from(code, 3, d + 0) == Some(d + 0));
    assert(depth_from(code, 2, d + 2) == Some(d + 0));
    assert(depth_from(code, 1, d + 1) == Some(d + 0));
    assert(depth_from(code, 0, d + 0) == Some(d + 0));
}

proof fn lemma_return_depth(jump: VmBranch, d: int)
    requires
        d >= 1,
    ensures
        code_depth(return_code(jump), d) == Some(d - 1),
{
    let code = return_code(jump);
    assert(depth_from(code, 27, d - 1) == Some(d - 1));
    assert(depth_from(code, 26, d - 1) == Some(d - 1));
    assert(depth_from(code, 25, d + 0) == Some(d - 1));
    assert(depth_from(code, 24, d + 0) == Some(d - 1));
    assert(depth_from(code, 23, d - 1) == Some(d - 1));
    assert(depth_from(code, 22, d + 0) == Some(d - 1));
    assert(depth_from(code, 21, d + 0) == Some(d - 1));
    assert(depth_from(code, 20, d - 1) == Some(d - 1));
    assert(depth_from(code, 19, d + 0) == Some(d - 1));
    assert(depth_from(code, 18, d + 0) == Some(d - 1));
    assert(depth_from(code, 17, d - 1) == Some(d - 1));
    assert(depth_from(code, 16, d + 0) == Some(d - 1));
    assert(depth_from(code, 15, d + 0) == Some(d - 1));
    assert(depth_from(code, 14, d - 1) == Some(d - 1));
    assert(depth_from(code, 13, d + 0) == Some(d - 1));
    assert(depth_from(code, 12, d + 1) == Some(d - 1));
    assert(depth_from(code, 11, d + 0) == Some(d - 1));
    assert(depth_from(code, 10, d - 1) == Some(d - 1));
    assert(depth_from(code, 9, d + 1) == Some(d - 1));
    assert(depth_from(code, 8, d + 0) == Some(d - 1));
    assert(depth_from(code, 7, d - 1) == Some(d - 1));
    assert(depth_from(code, 6, d + 0) == Some(d - 1));
    assert(depth_from(code, 5, d + 0) == Some(d - 1));
    assert(depth_from(code, 4, d + 0) == Some(d - 1));
    assert(depth_from(code, 3, d + 1) == Some(d - 1));
    assert(depth_from(code, 2, d + 0) == Some(d - 1));
    assert(depth_from(code, 1, d - 1) == Some(d - 1));
    assert(depth_from(code, 0, d + 0) == Some(d - 1));
}

proof fn lemma_binary_depth(kept: nat, op: Seq<VmInstr>)
    requires
        code_depth(op, (prepare2(kept).1 + 2) as int) == Some((prepare2(kept).1 + 1) as int),
    ensures
        code_depth(binary_code(kept, op).0, kept as int) == Some(binary_code(kept, op).1 as int),
{
    lemma_prepare_depth(kept);
    lemma_depth_concat(prepare2(kept).0, op, kept as int);
    assert(code_depth(op, (prepare2(kept).1 + 2) as int) == Some((prepare2(kept).1 + 1) as int));
}

proof fn lemma_unary_depth(kept: nat, op: Seq<VmInstr>)
    requires
        code_depth(op, (prepare1(kept).1 + 1) as int) == Some((prepare1(kept).1 + 1) as int),
    ensures
        code_depth(unary_code(kept, op).0, kept as int) == Some(unary_code(kept, op).1 as int),
{
    lemma_prepare_depth(kept);
    lemma_depth_concat(prepare1(kept).0, op, kept as int);
    assert(code_depth(op, (prepare1(kept).1 + 1) as int) == Some((prepare1(kept).1 + 1) as int));
}

proof fn lemma_binary_op_depth_0(d: int)
    requires
        d >= 2,
    ensures
        code_depth(seq![VmInstr::I32Add, VmInstr::I32Extend16S], d) == Some(d - 1),
{
    reveal_with_fuel(depth_from, 6);
}

proof fn lemma_binary_op_depth_1(d: int)
    requires
        d >= 2,
    ensures
        code_depth(seq![VmInstr::I32Sub, VmInstr::I32Extend16S], d) == Some(d - 1),
{
    reveal_with_fuel(depth_from, 6);
}

proof fn lemma_binary_op_depth_2(d: int)
    requires
        d >= 2,
    ensures
        code_depth(seq![VmInstr::I32And, VmInstr::I32Extend16S], d) == Some(d - 1),
{
    reveal_with_fuel(depth_from, 6);
}

proof fn lemma_binary_op_depth_3(d: int)
    requires
        d >= 2,
    ensures
        code_depth(seq![VmInstr::I32Or, VmInstr::I32Extend16S], d) == Some(d - 1),
{
    reveal_with_fuel(depth_from, 6);
}

proof fn lemma_binary_op_depth_4(d: int)
    requires
        d >= 2,
    ensures
        code_depth(truth_code(VmInstr::I32Eq), d) == Some(d - 1),
{
    reveal_with_fuel(depth_from, 6);
}

proof fn lemma_binary_op_depth_5(d: int)
    requires
        d >= 2,
    ensures
        code_depth(truth_code(VmInstr::I32GtS), d) == Some(d - 1),
{
    reveal_with_fuel(depth_from, 6);
}

proof fn lemma_binary_op_depth_6(d: int)
    requires
        d >= 2,
    ensures
        code_depth(truth_code(VmInstr::I32LtS), d) == Some(d - 1),
{
    reveal_with_fuel(depth_from, 6);
}

proof fn lemma_binary_op_depth_7(d: int)
    requires
        d >= 2,
    ensures
        code_depth(seq![VmInstr::I32Mul, VmInstr::I32Extend16S], d) == Some(d - 1),
{
    reveal_with_fuel(depth_from, 6);
}

proof fn lemma_binary_op_depth_8(d: int)
    requires
        d >= 2,
    ensures
        code_depth(seq![VmInstr::I32DivS, VmInstr::I32Extend16S], d) == Some(d - 1),
{
    reveal_with_fuel(depth_from, 6);
}

proof fn lemma_unary_op_depth_0(d: int)
    requires
        d >= 1,
    ensures
        code_depth(seq![
                VmInstr::LocalSet(VmLocal::Temp),
                VmInstr::I32Const(0),
                VmInstr::LocalGet(VmLocal::Temp),
                VmInstr::I32Sub,
                VmInstr::I32Extend16S,
            ], d) == Some(d),
{
    reveal_with_fuel(depth_from, 6);
}

proof fn lemma_unary_op_depth_1(d: int)
    requires
        d >= 1,
    ensures
        code_depth(seq![VmInstr::I32Const(-1i32), VmInstr::I32Xor], d) == Some(d),
{
    reveal_with_fuel(depth_from, 6);
}

proof fn lemma_unary_op_depth_2(d: int)
    requires
        d >= 1,
    ensures
        code_depth(seq![VmInstr::GlobalSet(VmGlobal::ScreenColor), VmInstr::I32Const(0)], d) == Some(d),
{
    reveal_with_fuel(depth_from, 6);
}

proof fn lemma_arithmetic_depth(c: Command, kept: nat)
    requires
        c is Add || c is Sub || c is Neg || c is Eq || c is Gt || c is Lt || c is And || c is Or
            || c is Not,
    ensures
        code_depth(
            command_body(c, 0, VmBranch::Loop, 0, None, Map::empty(), Map::empty(), Map::empty(), kept).0,
            kept as int,
        ) == Some(
            command_body(c, 0, VmBranch::Loop, 0, None, Map::empty(), Map::empty(), Map::empty(), kept).1 as int,
        ),
{
    match c {
        Command::Add => {
            lemma_binary_op_depth_0((prepare2(kept).1 + 2) as int);
            lemma_binary_depth(kept, seq![VmInstr::I32Add, VmInstr::I32Extend16S]);
        },
        Command::Sub => {
            lemma_binary_op_depth_1((prepare2(kept).1 + 2) as int);
            lemma_binary_depth(kept, seq![VmInstr::I32Sub, VmInstr::I32Extend16S]);
        },
        Command::And => {
            lemma_binary_op_depth_2((prepare2(kept).1 + 2) as int);
            lemma_binary_depth(kept, seq![VmInstr::I32And, VmInstr::I32Extend16S]);
        },
        Command::Or => {
            lemma_binary_op_depth_3((prepare2(kept).1 + 2) as int);
            lemma_binary_depth(kept, seq![VmInstr::I32Or, VmInstr::I32Extend16S]);
        },
        Command::Eq => {
            lemma_binary_op_depth_4((prepare2(kept).1 + 2) as int);
            lemma_binary_depth(kept, truth_code(VmInstr::I32Eq));
        },
        Command::Gt => {
            lemma_binary_op_depth_5((prepare2(kept).1 + 2) as int);
            lemma_binary_depth(kept, truth_code(VmInstr::I32GtS));
        },
        Command::Lt => {
            lemma_binary_op_depth_6((prepare2(kept).1 + 2) as int);
            lemma_binary_depth(kept, truth_code(VmInstr::I32LtS));
        },
        Command::Neg => {
            lemma_unary_op_depth_0((prepare1(kept).1 + 1) as int);
            lemma_unary_depth(kept, seq![
                VmInstr::LocalSet(VmLocal::Temp),
                VmInstr::I32Const(0),
                VmInstr::LocalGet(VmLocal::Temp),
                VmInstr::I32Sub,
                VmInstr::I32Extend16S,
            ]);
        },
        Command::Not => {
            lemma_unary_op_depth_1((prepare1(kept).1 + 1) as int);
            lemma_unary_depth(kept, seq![VmInstr::I32Const(-1i32), VmInstr::I32Xor]);
        },
        _ => {},
    }
}

proof fn lemma_push_value_depth(segment: PushSegment, offset: Word, static_start: Word, d: int)
    requires
        d >= 0,
    ensures
        code_depth(push_value_code(segment, offset, static_start), d) == Some(d + 1),
{
    let code = push_value_code(segment, offset, static_start);
    if code.len() == 1 {
        assert(depth_from(code, 1, d + 1) == Some(d + 1));
        assert(depth_from(code, 0, d) == Some(d + 1));
    } else if code.len() == 2 {
        assert(depth_from(code, 2, d + 1) == Some(d + 1));
        assert(depth_from(code, 1, d + 1) == Some(d + 1));
        assert(depth_from(code, 0, d) == Some(d + 1));
    } else {
        assert(code.len() == 3);
        assert(depth_from(code, 3, d + 1) == Some(d + 1));
        assert(depth_from(code, 2, d + 2) == Some(d + 1));
        assert(depth_from(code, 1, d + 1) == Some(d + 1));
        assert(depth_from(code, 0, d) == Some(d + 1));
    }
}

proof fn lemma_function_depth(count: Word, d: int)
    requires
        d >= 0,
    ensures
        code_depth(function_code(count), d) == Some(d),
{
    let code = function_code(count);
    if count == 0 {
    } else if count == 1 {
        assert(depth_from(code, 7, d) == Some(d));
        assert(depth_from(code, 6, d + 1) == Some(d));
        assert(depth_from(code, 5, d + 2) == Some(d));
        assert(depth_from(code, 4, d + 1) == Some(d));
        assert(depth_from(code, 3, d) == Some(d));
        assert(depth_from(code, 2, d + 2) == Some(d));
        assert(depth_from(code, 1, d + 1) == Some(d));
        assert(depth_from(code, 0, d) == Some(d));
    } else {
        assert(depth_from(code, 8, d) == Some(d));
        assert(depth_from(code, 7, d + 1) == Some(d));
        assert(depth_from(code, 6, d + 2) == Some(d));
        assert(depth_from(code, 5, d + 1) == Some(d));
        assert(depth_from(code, 4, d) == Some(d));
        assert(depth_from(code, 3, d + 3) == Some(d));
        assert(depth_from(code, 2, d + 2) == Some(d));
        assert(depth_from(code, 1, d + 1) == Some(d));
        assert(depth_from(code, 0, d) == Some(d));
    }
}

/// The code of a pop after the ticks counter.
spec fn pop_code(segment: PopSegment, offset: Word, static_start: Word, kept: nat) -> Seq<VmInstr> {
    if segment is Pointer {
        prepare1(kept).0 + seq![
            VmInstr::I32Const(2),
            VmInstr::I32Shl,
            VmInstr::LocalSet(if offset == 0 { VmLocal::This } else { VmLocal::That }),
        ]
    } else {
        prepare1(kept).0 + seq![VmInstr::LocalSet(VmLocal::Temp)] + pop_base_code(segment, static_start)
            + seq![VmInstr::LocalGet(VmLocal::Temp), VmInstr::I32Store(word_offset(offset as int))]
    }
}

proof fn lemma_pop_base_depth(segment: PopSegment, static_start: Word, d: int)
    requires
        !(segment is Pointer),
        d >= 0,
    ensures
        code_depth(pop_base_code(segment, static_start), d) == Some(d + 1),
{
    let b = pop_base_code(segment, static_start);
    assert(b.len() == 1);
    assert(stack_effect(b[0]).0 == 0 && stack_effect(b[0]).1 == 1);
    assert(depth_from(b, 1, d + 1) == Some(d + 1));
    assert(depth_from(b, 0, d) == Some(d + 1));
}

proof fn lemma_pop_depth(segment: PopSegment, offset: Word, static_start: Word, kept: nat)
    ensures
        code_depth(pop_code(segment, offset, static_start, kept), kept as int) == Some(
            prepare1(kept).1 as int,
        ),
{
    lemma_prepare_depth(kept);
    let p = prepare1(kept);
    let q = p.1 as int;
    if segment is Pointer {
        let rest = seq![
            VmInstr::I32Const(2),
            VmInstr::I32Shl,
            VmInstr::LocalSet(if offset == 0 { VmLocal::This } else { VmLocal::That }),
        ];
        lemma_depth_concat(p.0, rest, kept as int);
        assert(depth_from(rest, 3, q) == Some(q));
        assert(depth_from(rest, 2, q + 1) == Some(q));
        assert(depth_from(rest, 1, q + 2) == Some(q));
        assert(depth_from(rest, 0, q + 1) == Some(q));
    } else {
        let set = seq![VmInstr::LocalSet(VmLocal::Temp)];
        let a = p.0 + set;
        let b = pop_base_code(segment, static_start);
        let t = seq![VmInstr::LocalGet(VmLocal::Temp), VmInstr::I32Store(word_offset(offset as int))];
        lemma_depth_concat(p.0, set, kept as int);
        lemma_depth_concat(a, b, kept as int);
        lemma_depth_concat(a + b, t, kept as int);
        assert(depth_from(set, 1, q) == Some(q));
        assert(depth_from(set, 0, q + 1) == Some(q));
        lemma_pop_base_depth(segment, static_start, q);
        assert(depth_from(t, 2, q) == Some(q));
        assert(depth_from(t, 1, q + 2) == Some(q));
        assert(depth_from(t, 0, q + 1) == Some(q));
    }
}

proof fn lemma_moves_depth(
    c: Command,
    index: int,
    jump: VmBranch,
    static_start: Word,
    function_name: Option<Seq<char>>,
    labels: Map<Seq<char>, i32>,
    functions: Map<Seq<char>, i32>,
    calls: Map<usize, i32>,
    kept: nat,
)
    requires
        c is Push || c is Pop || c is Label || c is Function,
    ensures
        code_depth(command_body(c, index, jump, static_start, function_name, labels, functions, calls, kept).0, kept as int) == Some(command_body(c, index, jump, static_start, function_name, labels, functions, calls, kept).1 as int),
{
    match c {
        Command::Push(segment, offset) => lemma_push_value_depth(segment, offset, static_start, kept as int),
        Command::Pop(segment, offset) => lemma_pop_depth(segment, offset, static_start, kept),
        Command::Function(_, count) => lemma_function_depth(count, kept as int),
        _ => {},
    }
}

proof fn lemma_label_target_depth(
    jump: VmBranch,
    function_name: Option<Seq<char>>,
    label: Seq<char>,
    labels: Map<Seq<char>, i32>,
    d: int,
)
    requires
        d >= 0,
    ensures
        code_depth(label_target_code(jump, function_name, label, labels), d) == Some(d),
        code_depth(seq![VmInstr::Br(jump)], d) == Some(d),
        d >= 1 ==> code_depth(seq![VmInstr::I32Const(0), VmInstr::I32Ne, VmInstr::BrIf(jump)], d) == Some(
            d - 1,
        ),
{
    let t = label_target_code(jump, function_name, label, labels);
    if jump is Loop {
        assert(depth_from(t, 2, d) == Some(d));
        assert(depth_from(t, 1, d + 1) == Some(d));
        assert(depth_from(t, 0, d) == Some(d));
    }
    let b = seq![VmInstr::Br(jump)];
    assert(depth_from(b, 1, d) == Some(d));
    assert(depth_from(b, 0, d) == Some(d));
    if d >= 1 {
        let c = seq![VmInstr::I32Const(0), VmInstr::I32Ne, VmInstr::BrIf(jump)];
        assert(depth_from(c, 3, d - 1) == Some(d - 1));
        assert(depth_from(c, 2, d) == Some(d - 1));
        assert(depth_from(c, 1, d + 1) == Some(d - 1));
        assert(depth_from(c, 0, d) == Some(d - 1));
    }
}

proof fn lemma_jumps_depth(
    c: Command,
    index: int,
    jump: VmBranch,
    static_start: Word,
    function_name: Option<Seq<char>>,
    labels: Map<Seq<char>, i32>,
    functions: Map<Seq<char>, i32>,
    calls: Map<usize, i32>,
    kept: nat,
)
    requires
        c is Goto || c is IfGoto,
    ensures
        code_depth(command_body(c, index, jump, static_start, function_name, labels, functions, calls, kept).0, kept as int) == Some(command_body(c, index, jump, static_start, function_name, labels, functions, calls, kept).1 as int),
{
    match c {
        Command::Goto(label) => {
            let t = label_target_code(jump, function_name, label, labels);
            lemma_drop_code_depth(kept);
            lemma_label_target_depth(jump, function_name, label, labels, 0);
            lemma_depth_concat(drop_code(kept), t, kept as int);
            lemma_depth_concat(drop_code(kept) + t, seq![VmInstr::Br(jump)], kept as int);
        },
        Command::IfGoto(label) => {
            let t = label_target_code(jump, function_name, label, labels);
            let d = if kept > 1 { drop_code(kept) } else { seq![] };
            let dropped: nat = if kept > 1 { 0 } else { kept };
            lemma_drop_code_depth(kept);
            lemma_prepare_depth(dropped);
            lemma_label_target_depth(jump, function_name, label, labels, kept as int);
            lemma_label_target_depth(jump, function_name, label, labels, (prepare1(dropped).1 + 1) as int);
            lemma_depth_concat(t, d, kept as int);
            lemma_depth_concat(t + d, prepare1(dropped).0, kept as int);
            lemma_depth_concat(
                t + d + prepare1(dropped).0,
                seq![VmInstr::I32Const(0), VmInstr::I32Ne, VmInstr::BrIf(jump)],
                kept as int,
            );
            assert(code_depth(d, kept as int) == Some(dropped as int)) by {
                reveal_with_fuel(depth_from, 1);
            }
        },
        _ => {},
    }
}

proof fn lemma_return_code_depth(
    c: Command,
    index: int,
    jump: VmBranch,
    static_start: Word,
    function_name: Option<Seq<char>>,
    labels: Map<Seq<char>, i32>,
    functions: Map<Seq<char>, i32>,
    calls: Map<usize, i32>,
    kept: nat,
)
    requires
        c is Return,
    ensures
        code_depth(command_body(c, index, jump, static_start, function_name, labels, functions, calls, kept).0, kept as int) == Some(command_body(c, index, jump, static_start, function_name, labels, functions, calls, kept).1 as int),
{
    lemma_prepare_depth(kept);
    lemma_return_depth(jump, (prepare1(kept).1 + 1) as int);
    lemma_depth_concat(prepare1(kept).0, return_code(jump), kept as int);
}

proof fn lemma_inline_call_depth(name: Seq<char>, kept: nat)
    requires
        inline_call(name),
    ensures
        code_depth(call_code(name, 0, 0, VmBranch::Loop, Map::empty(), Map::empty(), kept).0, kept as int)
            == Some(call_code(name, 0, 0, VmBranch::Loop, Map::empty(), Map::empty(), kept).1 as int),
{
    lemma_prepare_depth(kept);
    let q1 = (prepare1(kept).1 + 1) as int;
    let q2 = (prepare2(kept).1 + 2) as int;
    if name == "Math.multiply"@ {
        lemma_binary_op_depth_7(q2);
        lemma_binary_depth(kept, seq![VmInstr::I32Mul, VmInstr::I32Extend16S]);
    } else if name == "Math.divide"@ {
        lemma_binary_op_depth_8(q2);
        lemma_binary_depth(kept, seq![VmInstr::I32DivS, VmInstr::I32Extend16S]);
    } else if name == "Screen.clearScreen"@ {
        let code = seq![
            VmInstr::I32Const(65536),
            VmInstr::I32Const(0),
            VmInstr::I32Const(32768),
            VmInstr::MemoryFill,
            VmInstr::I32Const(0),
        ];
        let k = kept as int;
        assert(depth_from(code, 5, k + 1) == Some(k + 1));
        assert(depth_from(code, 4, k) == Some(k + 1));
        assert(depth_from(code, 3, k + 3) == Some(k + 1));
        assert(depth_from(code, 2, k + 2) == Some(k + 1));
        assert(depth_from(code, 1, k + 1) == Some(k + 1));
        assert(depth_from(code, 0, k) == Some(k + 1));
    } else if name == "Screen.setColor"@ {
        lemma_unary_op_depth_2(q1);
        lemma_unary_depth(kept, seq![VmInstr::GlobalSet(VmGlobal::ScreenColor), VmInstr::I32Const(0)]);
    } else if name == "Screen.drawPixel"@ {
        lemma_draw_pixel_depth(q2);
        lemma_binary_depth(kept, draw_pixel_code());
    } else if name == "Memory.init"@ {
        lemma_memory_init_depth(kept as int);
    } else if name == "Memory.alloc"@ || name == "Array.new"@ {
        lemma_alloc_depth(q1);
        lemma_unary_depth(kept, alloc_code());
    } else {
        lemma_dealloc_depth(q1);
        lemma_unary_depth(kept, dealloc_code());
    }
}

proof fn lemma_real_call_depth(
    name: Seq<char>,
    argument_count: Word,
    index: int,
    jump: VmBranch,
    functions: Map<Seq<char>, i32>,
    calls: Map<usize, i32>,
    kept: nat,
)
    requires
        !inline_call(name),
    ensures
        code_depth(call_code(name, argument_count, index, jump, functions, calls, kept).0, kept as int)
            == Some(0int),
{
    let c1 = seq![
        VmInstr::LocalGet(VmLocal::Sp),
        VmInstr::I32Const(calls[(index + 1) as usize]),
        VmInstr::I32Store(0),
    ];
    let c2 = seq![VmInstr::LocalGet(VmLocal::Sp)];
    let c3 = if argument_count > 0 {
        seq![VmInstr::I32Const((argument_count * 4) as i32), VmInstr::I32Sub]
    } else {
        seq![]
    };
    let c4 = seq![
        VmInstr::LocalSet(VmLocal::Arg),
        VmInstr::LocalGet(VmLocal::Sp),
        VmInstr::I32Const(20),
        VmInstr::I32Add,
        VmInstr::LocalTee(VmLocal::Sp),
        VmInstr::LocalSet(VmLocal::Lcl),
    ];
    let c5 = if jump is Loop {
        seq![VmInstr::I32Const(functions[name]), VmInstr::LocalSet(VmLocal::JumpTarget)]
    } else {
        seq![]
    };
    let c6 = seq![VmInstr::Br(jump)];
    let d = drop_code(kept);
    let f = save_frame_code();
    lemma_drop_code_depth(kept);
    lemma_save_frame_depth(0);
    lemma_depth_concat(d, c1, kept as int);
    lemma_depth_concat(d + c1, f, kept as int);
    lemma_depth_concat(d + c1 + f, c2, kept as int);
    lemma_depth_concat(d + c1 + f + c2, c3, kept as int);
    lemma_depth_concat(d + c1 + f + c2 + c3, c4, kept as int);
    lemma_depth_concat(d + c1 + f + c2 + c3 + c4, c5, kept as int);
    lemma_depth_concat(d + c1 + f + c2 + c3 + c4 + c5, c6, kept as int);
    assert(depth_from(c1, 3, 0) == Some(0int));
    assert(depth_from(c1, 2, 2) == Some(0int));
    assert(depth_from(c1, 1, 1) == Some(0int));
    assert(depth_from(c1, 0, 0) == Some(0int));
    assert(depth_from(c2, 1, 1) == Some(1int));
    assert(depth_from(c2, 0, 0) == Some(1int));
    if argument_count > 0 {
        assert(depth_from(c3, 2, 1) == Some(1int));
        assert(depth_from(c3, 1, 2) == Some(1int));
        assert(depth_from(c3, 0, 1) == Some(1int));
    }
    assert(depth_from(c4, 6, 0) == Some(0int));
    assert(depth_from(c4, 5, 1) == Some(0int));
    assert(depth_from(c4, 4, 1) == Some(0int));
    assert(depth_from(c4, 3, 2) == Some(0int));
    assert(depth_from(c4, 2, 1) == Some(0int));
    assert(depth_from(c4, 1, 0) == Some(0int));
    assert(depth_from(c4, 0, 1) == Some(0int));
    if jump is Loop {
        assert(depth_from(c5, 2, 0) == Some(0int));
        assert(depth_from(c5, 1, 1) == Some(0int));
        assert(depth_from(c5, 0, 0) == Some(0int));
    }
    assert(depth_from(c6, 1, 0) == Some(0int));
    assert(depth_from(c6, 0, 0) == Some(0int));
}

proof fn lemma_call_depth(
    c: Command,
    index: int,
    jump: VmBranch,
    static_start: Word,
    function_name: Option<Seq<char>>,
    labels: Map<Seq<char>, i32>,
    functions: Map<Seq<char>, i32>,
    calls: Map<usize, i32>,
    kept: nat,
)
    requires
        c is Call,
    ensures
        code_depth(command_body(c, index, jump, static_start, function_name, labels, functions, calls, kept).0, kept as int) == Some(command_body(c, index, jump, static_start, function_name, labels, functions, calls, kept).1 as int),
{
    if let Command::Call(name, argument_count) = c {
        if inline_call(name) {
            lemma_inline_call_depth(name, kept);
            assert(call_code(name, argument_count, index, jump, functions, calls, kept) == call_code(
                name,
                0,
                0,
                VmBranch::Loop,
                Map::empty(),
                Map::empty(),
                kept,
            ));
        } else {
            lemma_real_call_depth(name, argument_count, index, jump, functions, calls, kept);
        }
    }
}

/// The operand stack holds exactly the values of the VM stack that the compiler keeps
/// there: from `kept` values, the code of any command never pops an operand that is not
/// there, and it ends with as many values as the compiler then keeps.
pub proof fn lemma_command_code_keeps_stack(
    c: Command,
    index: int,
    jump: VmBranch,
    static_start: Word,
    function_name: Option<Seq<char>>,
    labels: Map<Seq<char>, i32>,
    functions: Map<Seq<char>, i32>,
    calls: Map<usize, i32>,
    kept: nat,
)
    ensures
        code_depth(vm_tick_code() + command_body(c, index, jump, static_start, function_name, labels, functions, calls, kept).0, kept as int) == Some(
            command_body(c, index, jump, static_start, function_name, labels, functions, calls, kept).1 as int,
        ),
{
    let k = kept as int;
    let tick = vm_tick_code();
    assert(depth_from(tick, 4, k) == Some(k));
    assert(depth_from(tick, 3, k + 1) == Some(k));
    assert(depth_from(tick, 2, k + 2) == Some(k));
    assert(depth_from(tick, 1, k + 1) == Some(k));
    assert(depth_from(tick, 0, k) == Some(k));
    lemma_depth_concat(tick, command_body(c, index, jump, static_start, function_name, labels, functions, calls, kept).0, k);
    match c {
        Command::Push(..) => lemma_moves_depth(c, index, jump, static_start, function_name, labels, functions, calls, kept),
        Command::Pop(..) => lemma_moves_depth(c, index, jump, static_start, function_name, labels, functions, calls, kept),
        Command::Label(..) => lemma_moves_depth(c, index, jump, static_start, function_name, labels, functions, calls, kept),
        Command::Function(..) => lemma_moves_depth(c, index, jump, static_start, function_name, labels, functions, calls, kept),
        Command::Goto(..) => lemma_jumps_depth(c, index, jump, static_start, function_name, labels, functions, calls, kept),
        Command::IfGoto(..) => lemma_jumps_depth(c, index, jump, static_start, function_name, labels, functions, calls, kept),
        Command::Call(..) => lemma_call_depth(c, index, jump, static_start, function_name, labels, functions, calls, kept),
        Command::Return => lemma_return_code_depth(c, index, jump, static_start, function_name, labels, functions, calls, kept),
        _ => {
            lemma_arithmetic_depth(c, kept);
            assert(command_body(c, index, jump, static_start, function_name, labels, functions, calls, kept) == command_body(
                c,
                0,
                VmBranch::Loop,
                0,
                None,
                Map::empty(),
                Map::empty(),
                Map::empty(),
                kept,
            ));
        },
    }
}

/// The commands of the files in order, each with the first static address of its file.
pub open spec fn flat_commands(files: Seq<FileSpec>, commands: Seq<Command>) -> Seq<(Word, Command)>
    decreases files.len(),
{
    if files.len() == 0 {
        seq![]
    } else {
        let f = files.last();
        flat_commands(files.drop_last(), commands) + commands.subrange(
            f.starting_command_index as int,
            f.starting_command_index + f.command_count,
        ).map_values(|c: Command| (f.static_start, c))
    }
}

/// What the first pass over the commands has found: the case of each label (under
/// `function.label`), of each function and of each command that follows a call, the number
/// of cases so far, where cases start, the case of `Sys.init`, and the current function.
pub struct CaseScan {
    pub labels: Map<Seq<char>, i32>,
    pub functions: Map<Seq<char>, i32>,
    pub calls: Map<usize, i32>,
    pub case_index: int,
    pub starts: Set<int>,
    pub start_case: Option<int>,
    pub function_name: Option<Seq<char>>,
}

/// The first pass at command `i`: a label starts a case (unless one starts there already),
/// a function starts a case, and a call makes a case start after it; `None` for a label
/// outside any function.
pub open spec fn scan_case_command(st: CaseScan, i: int, c: Command) -> Option<CaseScan> {
    match c {
        Command::Label(name) => match st.function_name {
            None => None,
            Some(f) => {
                let new_start = !st.starts.contains(i);
                let ci = if new_start { st.case_index + 1 } else { st.case_index };
                Some(
                    CaseScan {
                        labels: st.labels.insert(label_key(f, name), (ci - 1) as i32),
                        starts: st.starts.insert(i),
                        case_index: ci,
                        ..st
                    },
                )
            },
        },
        Command::Function(name, _) => Some(
            CaseScan {
                function_name: Some(name),
                start_case: if name == "Sys.init"@ { Some(st.case_index) } else { st.start_case },
                functions: st.functions.insert(name, st.case_index as i32),
                starts: st.starts.insert(i),
                case_index: st.case_index + 1,
                ..st
            },
        ),
        Command::Call(_, _) => Some(
            CaseScan {
                calls: st.calls.insert((i + 1) as usize, st.case_index as i32),
                starts: st.starts.insert(i + 1),
                case_index: st.case_index + 1,
                ..st
            },
        ),
        _ => Some(st),
    }
}

/// The first pass over the first `n` commands.
pub open spec fn scan_cases(flat: Seq<(Word, Command)>, n: int) -> Option<CaseScan>
    decreases n,
{
    if n <= 0 {
        Some(
            CaseScan {
                labels: Map::empty(),
                functions: Map::empty(),
                calls: Map::empty(),
                case_index: 0,
                starts: Set::empty(),
                start_case: None,
                function_name: None,
            },
        )
    } else {
        match scan_cases(flat, n - 1) {
            None => None,
            Some(st) => scan_case_command(st, n - 1, flat[n - 1].1),
        }
    }
}

/// The cases built so far in the second pass, the code of the case being built, how many
/// values its code keeps on the operand stack, and the current function.
pub struct CaseBuild {
    pub cases: Seq<Seq<VmInstr>>,
    pub current: Seq<VmInstr>,
    pub kept: nat,
    pub function_name: Option<Seq<char>>,
}

/// The current function at a command.
pub open spec fn function_at(b: CaseBuild, c: Command) -> Option<Seq<char>> {
    match c {
        Command::Function(name, _) => Some(name),
        _ => b.function_name,
    }
}

/// Where the jump of a command goes: straight to the block of a case that is built later,
/// else back to the dispatch loop.
pub open spec fn case_jump(scan: CaseScan, b: CaseBuild, c: Command) -> VmBranch {
    let built = b.cases.len() as int;
    match c {
        Command::Goto(label) => {
            let t = scan.labels[label_key(function_at(b, c).unwrap(), label)] as int;
            if t > built { VmBranch::Depth((t - built - 1) as u32) } else { VmBranch::Loop }
        },
        Command::IfGoto(label) => {
            let t = scan.labels[label_key(function_at(b, c).unwrap(), label)] as int;
            if t > built { VmBranch::Depth((t - built - 1) as u32) } else { VmBranch::Loop }
        },
        Command::Call(name, _) => if scan.functions.dom().contains(name) && scan.functions[name] > built {
            VmBranch::Depth((scan.functions[name] - built - 1) as u32)
        } else {
            VmBranch::Loop
        },
        _ => VmBranch::Loop,
    }
}

/// The code of command `i` in the second pass, and how many values it then keeps.
pub open spec fn case_command_code(scan: CaseScan, b: CaseBuild, i: int, ss: Word, c: Command) -> (
    Seq<VmInstr>,
    nat,
) {
    let body = command_body(
        c,
        i,
        case_jump(scan, b, c),
        ss,
        function_at(b, c),
        scan.labels,
        scan.functions,
        scan.calls,
        b.kept,
    );
    (vm_tick_code() + body.0, body.1)
}

/// The second pass at command `i`: its code goes into the current case, which is closed
/// (its kept values moved to RAM) where a case starts after it.
pub open spec fn build_step(scan: CaseScan, b: CaseBuild, i: int, ss: Word, c: Command) -> CaseBuild {
    let code = case_command_code(scan, b, i, ss, c);
    let current = b.current + code.0;
    if scan.starts.contains(i + 1) {
        CaseBuild {
            cases: b.cases.push(current + drop_code(code.1)),
            current: seq![],
            kept: 0,
            function_name: function_at(b, c),
        }
    } else {
        CaseBuild { cases: b.cases, current, kept: code.1, function_name: function_at(b, c) }
    }
}

/// The second pass over the first `n` commands.
pub open spec fn build_cases(scan: CaseScan, flat: Seq<(Word, Command)>, n: int) -> CaseBuild
    decreases n,
{
    if n <= 0 {
        CaseBuild { cases: seq![], current: seq![], kept: 0, function_name: scan.function_name }
    } else {
        let b = build_cases(scan, flat, n - 1);
        build_step(scan, b, n - 1, flat[n - 1].0, flat[n - 1].1)
    }
}

/// Command `i` can be compiled in the second pass: a jump's label is known in the current
/// function, the command can be compiled where its jump goes, and at most `0x8000` values
/// are kept after it.
pub open spec fn build_ready(scan: CaseScan, b: CaseBuild, i: int, ss: Word, c: Command) -> bool {
    &&& case_command_code(scan, b, i, ss, c).1 <= 0x8000
    &&& (c matches Command::Goto(label) ==> function_at(b, c) is Some && scan.labels.dom().contains(
        label_key(function_at(b, c).unwrap(), label),
    ))
    &&& (c matches Command::IfGoto(label) ==> function_at(b, c) is Some && scan.labels.dom().contains(
        label_key(function_at(b, c).unwrap(), label),
    ))
    &&& command_compilable(
        c,
        i,
        case_jump(scan, b, c),
        ss,
        function_at(b, c),
        scan.labels,
        scan.functions,
        scan.calls,
        b.kept,
    )
}

/// What the first pass finds in a program, with a case also starting after the last
/// command.
pub open spec fn program_scan(files: Seq<FileSpec>, commands: Seq<Command>) -> CaseScan {
    let flat = flat_commands(files, commands);
    let scan = scan_cases(flat, flat.len() as int).unwrap();
    CaseScan { starts: scan.starts.insert(commands.len() as int), ..scan }
}

/// A program can be compiled with static dispatch: its files lie within its commands, the
/// first pass finds no label outside a function, and every command can be compiled.
pub open spec fn static_compilable(files: Seq<FileSpec>, commands: Seq<Command>) -> bool {
    let flat = flat_commands(files, commands);
    &&& forall|k: int| 0 <= k < files.len() ==> files[k].starting_command_index + files[k].command_count
        <= commands.len()
    &&& flat.len() <= 0x3fff_ffff
    &&& commands.len() <= 0x3fff_ffff
    &&& scan_cases(flat, flat.len() as int) is Some
    &&& forall|i: int|
        0 <= i < flat.len() ==> build_ready(
            program_scan(files, commands),
            #[trigger] build_cases(program_scan(files, commands), flat, i),
            i,
            flat[i].0,
            flat[i].1,
        )
}

/// The commands of a flattened program, by their views.
pub open spec fn flat_view(flat: Seq<(Word, VMCommand)>) -> Seq<(Word, Command)> {
    flat.map_values(|p: (Word, VMCommand)| (p.0, p.1@))
}

/// The commands of the files in order, each with the first static address of its file.
fn flatten(program: &Program) -> (flat: Vec<(Word, VMCommand)>)
    requires
        forall|k: int|
            0 <= k < program.files@.len() ==> program.files@[k].starting_command_index
                + program.files@[k].command_count <= program.all_commands@.len(),
    ensures
        flat_view(flat@) == flat_commands(files_of(program.files@), commands_of(program.all_commands@)),
{
    let ghost files = files_of(program.files@);
    let ghost commands = commands_of(program.all_commands@);
    let mut flat: Vec<(Word, VMCommand)> = Vec::new();
    let mut k: usize = 0;
    while k < program.files.len()
        invariant
            k <= program.files@.len(),
            files == files_of(program.files@),
            commands == commands_of(program.all_commands@),
            forall|j: int|
                0 <= j < program.files@.len() ==> program.files@[j].starting_command_index
                    + program.files@[j].command_count <= program.all_commands@.len(),
            flat_view(flat@) == flat_commands(files.take(k as int), commands),
        decreases program.files@.len() - k,
    {
        let file = &program.files[k];
        let start = file.starting_command_index;
        let count = file.command_count;
        let ss = file.static_segment.start();
        assert(program.files@[k as int].starting_command_index + program.files@[k as int].command_count
            <= program.all_commands@.len());
        let total = program.all_commands.len();
        let ghost before = flat_view(flat@);
        assert(commands.subrange(start as int, start as int).map_values(|c: Command| (ss, c)) =~= Seq::<
            (Word, Command),
        >::empty());
        assert(before + Seq::<(Word, Command)>::empty() =~= before);
        let mut j: usize = 0;
        while j < count
            invariant
                j <= count,
                total == program.all_commands@.len(),
                start + count <= program.all_commands@.len(),
                commands == commands_of(program.all_commands@),
                flat_view(flat@) == before + commands.subrange(start as int, start + j).map_values(
                    |c: Command| (ss, c),
                ),
            decreases count - j,
        {
            assert(start + j < program.all_commands@.len());
            let c = program.all_commands[start + j].duplicate();
            let ghost old_flat = flat@;
            flat.push((ss, c));
            proof {
                assert(c@ == commands[start + j]);
                assert(flat_view(flat@) =~= flat_view(old_flat).push((ss, commands[start + j])));
                assert(commands.subrange(start as int, start + j + 1) =~= commands.subrange(
                    start as int,
                    start + j,
                ).push(commands[start + j]));
                assert(flat_view(flat@) =~= before + commands.subrange(start as int, start + j + 1).map_values(
                    |c: Command| (ss, c),
                ));
            }
            j = j + 1;
        }
        proof {
            assert(files.take(k + 1).drop_last() =~= files.take(k as int));
            assert(files.take(k + 1).last() == file@);
        }
        k = k + 1;
    }
    assert(files.take(k as int) =~= files);
    flat
}



/// The tables that the first pass fills.
pub struct CaseTables {
    pub labels: NameIndices,
    pub functions: NameIndices,
    pub calls: CommandIndices,
    pub starts: Vec<usize>,
    pub case_index: i32,
    pub start_case: Option<i32>,
    pub function_name: Option<String>,
}

/// The contents of an optional name.
pub open spec fn owned_name_view(name: Option<String>) -> Option<Seq<char>> {
    match name {
        Some(s) => Some(s@),
        None => None,
    }
}

/// The tables hold what the first pass has found.
pub open spec fn tables_hold(t: CaseTables, scan: CaseScan) -> bool {
    &&& t.labels@ == scan.labels
    &&& t.functions@ == scan.functions
    &&& t.calls@ == scan.calls
    &&& strictly_increasing(ints(t.starts@))
    &&& forall|x: int| ints(t.starts@).contains(x) <==> scan.starts.contains(x)
    &&& t.case_index == scan.case_index
    &&& t.start_case == match scan.start_case {
        Some(c) => Some(c as i32),
        None => None::<i32>,
    }
    &&& owned_name_view(t.function_name) == scan.function_name
}

proof fn lemma_scan_prefix(flat: Seq<(Word, Command)>, i: int, n: int)
    requires
        0 <= i <= n,
        scan_cases(flat, n) is Some,
    ensures
        scan_cases(flat, i) is Some,
    decreases n - i,
{
    if i < n {
        lemma_scan_prefix(flat, i + 1, n);
    }
}

proof fn lemma_scan_count(flat: Seq<(Word, Command)>, i: int)
    requires
        0 <= i,
        scan_cases(flat, i) is Some,
    ensures
        0 <= scan_cases(flat, i).unwrap().case_index <= i,
        forall|x: int| scan_cases(flat, i).unwrap().starts.contains(x) ==> 0 <= x <= i,
    decreases i,
{
    if i > 0 {
        lemma_scan_count(flat, i - 1);
    }
}

/// The first pass over the flattened commands.
fn scan_program(flat: &Vec<(Word, VMCommand)>) -> (t: CaseTables)
    requires
        flat@.len() <= 0x3fff_ffff,
        scan_cases(flat_view(flat@), flat@.len() as int) is Some,
    ensures
        tables_hold(t, scan_cases(flat_view(flat@), flat@.len() as int).unwrap()),
        t.starts.len() <= flat@.len() + 1,
{
    let ghost fv = flat_view(flat@);
    let mut t = CaseTables {
        labels: NameIndices::new(),
        functions: NameIndices::new(),
        calls: CommandIndices::new(),
        starts: Vec::new(),
        case_index: 0,
        start_case: None,
        function_name: None,
    };
    assert(ints(t.starts@) =~= Seq::<int>::empty());
    let mut i: usize = 0;
    while i < flat.len()
        invariant
            i <= flat@.len() <= 0x3fff_ffff,
            fv == flat_view(flat@),
            scan_cases(fv, flat@.len() as int) is Some,
            scan_cases(fv, i as int) is Some,
            tables_hold(t, scan_cases(fv, i as int).unwrap()),
            t.starts.len() <= i,
        decreases flat@.len() - i,
    {
        proof {
            lemma_scan_prefix(fv, i + 1, flat@.len() as int);
            lemma_scan_count(fv, i as int);
        }
        let ghost st = scan_cases(fv, i as int).unwrap();
        let ghost next = scan_cases(fv, i + 1).unwrap();
        assert(fv[i as int] == (flat@[i as int].0, flat@[i as int].1@));
        match &flat[i].1 {
            VMCommand::Label { name } => {
                let f = t.function_name.as_ref().unwrap();
                if find_target(&t.starts, i).is_none() {
                    insert_target(&mut t.starts, i);
                    t.case_index = t.case_index + 1;
                }
                let key = label_key_exec(f, name);
                t.labels.insert(key, t.case_index - 1);
            },
            VMCommand::Function { name, .. } => {
                let cs = str_chars(name.as_str());
                if chars_eq_str(&cs, "Sys.init") {
                    t.start_case = Some(t.case_index);
                }
                t.functions.insert(name.clone(), t.case_index);
                insert_target(&mut t.starts, i);
                t.case_index = t.case_index + 1;
                t.function_name = Some(name.clone());
            },
            VMCommand::Call { .. } => {
                t.calls.insert(i + 1, t.case_index);
                insert_target(&mut t.starts, i + 1);
                t.case_index = t.case_index + 1;
            },
            _ => {},
        }
        assert(tables_hold(t, next));
        i = i + 1;
    }
    t
}

/// The views of the cases.
pub open spec fn vm_case_views(cases: Seq<Vec<VmInstr>>) -> Seq<Seq<VmInstr>> {
    cases.map_values(|c: Vec<VmInstr>| c@)
}

/// The numbers of a `Vec<i32>`.
pub open spec fn ints32(s: Seq<i32>) -> Seq<int> {
    s.map_values(|x: i32| x as int)
}

/// The exec state of the second pass holds `b`.
pub open spec fn build_holds(
    cases: Seq<Vec<VmInstr>>,
    current: Seq<VmInstr>,
    kept: usize,
    function_name: Option<String>,
    b: CaseBuild,
) -> bool {
    &&& vm_case_views(cases) == b.cases
    &&& current == b.current
    &&& kept == b.kept
    &&& owned_name_view(function_name) == b.function_name
}

proof fn lemma_build_count(scan: CaseScan, flat: Seq<(Word, Command)>, i: int)
    requires
        0 <= i,
    ensures
        build_cases(scan, flat, i).cases.len() <= i,
    decreases i,
{
    if i > 0 {
        lemma_build_count(scan, flat, i - 1);
    }
}

/// The second pass: the code of each command goes into the current case, which is closed
/// where a case starts after the command.
fn build_program_cases(flat: &Vec<(Word, VMCommand)>, t: &CaseTables, Ghost(scan): Ghost<CaseScan>) -> (cases: Vec<
    Vec<VmInstr>,
>)
    requires
        flat@.len() <= 0x3fff_ffff,
        tables_hold(*t, scan),
        forall|i: int|
            0 <= i < flat@.len() ==> build_ready(
                scan,
                #[trigger] build_cases(scan, flat_view(flat@), i),
                i,
                flat_view(flat@)[i].0,
                flat_view(flat@)[i].1,
            ),
    ensures
        vm_case_views(cases@) == build_cases(scan, flat_view(flat@), flat@.len() as int).cases,
{
    let ghost fv = flat_view(flat@);
    let mut cases: Vec<Vec<VmInstr>> = Vec::new();
    let mut current: Vec<VmInstr> = Vec::new();
    let mut stack_size: usize = 0;
    let mut function_name: Option<String> = match &t.function_name {
        Some(name) => Some(name.clone()),
        None => None,
    };
    assert(vm_case_views(cases@) =~= Seq::<Seq<VmInstr>>::empty());
    let mut i: usize = 0;
    while i < flat.len()
        invariant
            i <= flat@.len() <= 0x3fff_ffff,
            fv == flat_view(flat@),
            tables_hold(*t, scan),
            forall|j: int|
                0 <= j < flat@.len() ==> build_ready(
                    scan,
                    #[trigger] build_cases(scan, fv, j),
                    j,
                    fv[j].0,
                    fv[j].1,
                ),
            build_holds(cases@, current@, stack_size, function_name, build_cases(scan, fv, i as int)),
        decreases flat@.len() - i,
    {
        let ghost b = build_cases(scan, fv, i as int);
        proof {
            lemma_build_count(scan, fv, i as int);
        }
        assert(build_ready(scan, b, i as int, fv[i as int].0, fv[i as int].1));
        assert(fv[i as int] == (flat@[i as int].0, flat@[i as int].1@));
        let ss = flat[i].0;
        let command = &flat[i].1;
        if let VMCommand::Function { name, .. } = command {
            function_name = Some(name.clone());
        }
        let built = cases.len() as i32;
        let jump = match command {
            VMCommand::Goto { label_name } => {
                let key = label_key_exec(function_name.as_ref().unwrap(), label_name);
                let target = t.labels.get(key.as_str()).unwrap();
                if target > built {
                    VmBranch::Depth((target - built) as u32 - 1)
                } else {
                    VmBranch::Loop
                }
            },
            VMCommand::IfGoto { label_name } => {
                let key = label_key_exec(function_name.as_ref().unwrap(), label_name);
                let target = t.labels.get(key.as_str()).unwrap();
                if target > built {
                    VmBranch::Depth((target - built) as u32 - 1)
                } else {
                    VmBranch::Loop
                }
            },
            VMCommand::Call { function_name: callee, .. } => match t.functions.get(callee.as_str()) {
                Some(target) => if target > built {
                    VmBranch::Depth((target - built) as u32 - 1)
                } else {
                    VmBranch::Loop
                },
                None => VmBranch::Loop,
            },
            _ => VmBranch::Loop,
        };
        assert(jump == case_jump(scan, b, fv[i as int].1));
        assert(owned_name_view(function_name) == function_at(b, fv[i as int].1));
        let mut code = command_to_wasm2(
            command,
            i,
            jump,
            ss,
            function_name.as_ref(),
            &t.labels,
            &t.functions,
            &t.calls,
            &mut stack_size,
        );
        current.append(&mut code);
        if find_target(&t.starts, i + 1).is_some() {
            drop_stack_to_ram(&mut stack_size, &mut current);
            let block = current;
            let ghost before = cases@;
            cases.push(block);
            current = Vec::new();
            assert(vm_case_views(cases@) =~= vm_case_views(before).push(block@));
        }
        i = i + 1;
    }
    cases
}

/// What static dispatch compiles a program to: its cases.
pub open spec fn static_program_cases(files: Seq<FileSpec>, commands: Seq<Command>) -> Seq<Seq<VmInstr>> {
    let flat = flat_commands(files, commands);
    build_cases(program_scan(files, commands), flat, flat.len() as int).cases
}

/// Compiles a program for a dispatch loop over its cases of straight-line code: a case
/// starts at each function, at each label and after each call. Returns the cases, the case
/// of `Sys.init` (0 where there is none), and the commands at which cases start, in
/// increasing order (the end of the commands among them).
pub fn program_to_static_cases(program: &Program) -> (r: (Vec<Vec<VmInstr>>, i32, Vec<i32>))
    requires
        static_compilable(files_of(program.files@), commands_of(program.all_commands@)),
    ensures
        vm_case_views(r.0@) == static_program_cases(files_of(program.files@), commands_of(program.all_commands@)),
        r.1 == match program_scan(files_of(program.files@), commands_of(program.all_commands@)).start_case {
            Some(c) => c as i32,
            None => 0i32,
        },
        strictly_increasing(ints32(r.2@)),
        forall|x: int|
            ints32(r.2@).contains(x) <==> program_scan(
                files_of(program.files@),
                commands_of(program.all_commands@),
            ).starts.contains(x),
{
    let ghost files = files_of(program.files@);
    let ghost commands = commands_of(program.all_commands@);
    assert forall|k: int|
        0 <= k < program.files@.len() implies program.files@[k].starting_command_index
            + program.files@[k].command_count <= program.all_commands@.len() by {
        assert(files[k] == program.files@[k]@);
    }
    let flat = flatten(program);
    let mut t = scan_program(&flat);
    let ghost scan = program_scan(files, commands);
    proof {
        lemma_scan_count(flat_view(flat@), flat@.len() as int);
    }
    insert_target(&mut t.starts, program.all_commands.len());
    assert(tables_hold(t, scan));
    assert forall|x: int| ints(t.starts@).contains(x) implies 0 <= x <= 0x3fff_ffff by {
        assert(scan.starts.contains(x));
    }
    let cases = build_program_cases(&flat, &t, Ghost(scan));
    let start_case = match t.start_case {
        Some(c) => c,
        None => 0,
    };
    let mut case_starts: Vec<i32> = Vec::new();
    let mut k: usize = 0;
    while k < t.starts.len()
        invariant
            k <= t.starts@.len(),
            forall|x: int| ints(t.starts@).contains(x) ==> 0 <= x <= 0x3fff_ffff,
            case_starts@.len() == k,
            forall|j: int| 0 <= j < k ==> case_starts@[j] == t.starts@[j],
        decreases t.starts@.len() - k,
    {
        assert(ints(t.starts@)[k as int] == t.starts@[k as int]);
        assert(ints(t.starts@).contains(t.starts@[k as int] as int));
        case_starts.push(t.starts[k] as i32);
        k = k + 1;
    }
    assert(ints32(case_starts@) =~= ints(t.starts@));
    (cases, start_case, case_starts)
}

/// Loads the register at RAM `address` into `local` as a byte address.
pub open spec fn register_load(address: int, local: VmLocal) -> Seq<VmInstr> {
    seq![
        VmInstr::I32Const((address * 4) as i32),
        VmInstr::I32Load(0),
        VmInstr::I32Const(2),
        VmInstr::I32Shl,
        VmInstr::LocalSet(local),
    ]
}

/// Stores the byte address in `local` as the word address of the register at RAM `address`.
pub open spec fn register_store(address: int, local: VmLocal) -> Seq<VmInstr> {
    seq![
        VmInstr::I32Const((address * 4) as i32),
        VmInstr::LocalGet(local),
        VmInstr::I32Const(2),
        VmInstr::I32ShrU,
        VmInstr::I32Store(0),
    ]
}

/// Loads SP, LCL, ARG, THIS and THAT into their locals.
pub open spec fn load_registers_code() -> Seq<VmInstr> {
    register_load(register_address(Register::SP), VmLocal::Sp) + register_load(
        register_address(Register::LCL),
        VmLocal::Lcl,
    ) + register_load(register_address(Register::ARG), VmLocal::Arg) + register_load(
        register_address(Register::THIS),
        VmLocal::This,
    ) + register_load(register_address(Register::THAT), VmLocal::That)
}

/// Stores SP, LCL, ARG, THIS and THAT back to RAM.
pub open spec fn store_registers_code() -> Seq<VmInstr> {
    register_store(register_address(Register::SP), VmLocal::Sp) + register_store(
        register_address(Register::LCL),
        VmLocal::Lcl,
    ) + register_store(register_address(Register::ARG), VmLocal::Arg) + register_store(
        register_address(Register::THIS),
        VmLocal::This,
    ) + register_store(register_address(Register::THAT), VmLocal::That)
}

/// Once the limit of commands is reached: saves the jump target and the registers and
/// returns the number of commands run.
pub open spec fn limit_code() -> Seq<VmInstr> {
    seq![
        VmInstr::LocalGet(VmLocal::Ticks),
        VmInstr::LocalGet(VmLocal::Limit),
        VmInstr::I32GeU,
        VmInstr::If,
        VmInstr::LocalGet(VmLocal::JumpTarget),
        VmInstr::GlobalSet(VmGlobal::JumpTarget),
        VmInstr::LocalGet(VmLocal::Ticks),
    ] + store_registers_code() + seq![VmInstr::Return, VmInstr::End]
}

/// Each arm closes one more block and then runs its code.
pub open spec fn switch_arms(arms: Seq<Seq<VmInstr>>) -> Seq<VmInstr>
    decreases arms.len(),
{
    if arms.len() == 0 {
        seq![]
    } else {
        switch_arms(arms.drop_last()) + seq![VmInstr::End] + arms.last()
    }
}

/// A switch on the jump target: one block per case and one for the default, a branch
/// table into them, then the cases in order and a default that traps.
pub open spec fn switch_code(cases: Seq<Seq<VmInstr>>) -> Seq<VmInstr> {
    Seq::new((cases.len() + 1) as nat, |_i: int| VmInstr::Block) + seq![
        VmInstr::LocalGet(VmLocal::JumpTarget),
        VmInstr::BrTable(cases.len() as u32),
    ] + switch_arms(cases.push(seq![VmInstr::Unreachable]))
}

/// The body of the compiled function: take the jump target and the registers, loop over
/// the switch of the cases (first returning once the limit is reached, where there is
/// one), then mark the program as ended, store the registers and return the number of
/// commands run.
pub open spec fn dispatch_code(cases: Seq<Seq<VmInstr>>, with_limit: bool) -> Seq<VmInstr> {
    seq![VmInstr::GlobalGet(VmGlobal::JumpTarget), VmInstr::LocalSet(VmLocal::JumpTarget)]
        + load_registers_code() + seq![VmInstr::Loop] + (if with_limit {
        limit_code()
    } else {
        seq![]
    }) + switch_code(cases) + seq![
        VmInstr::End,
        VmInstr::I32Const(cases.len() as i32),
        VmInstr::GlobalSet(VmGlobal::JumpTarget),
    ] + store_registers_code() + seq![VmInstr::LocalGet(VmLocal::Ticks)]
}

fn push_register_load(code: &mut Vec<VmInstr>, register: Register, local: VmLocal)
    requires
        !(register is TEMP),
    ensures
        final(code)@ == old(code)@ + register_load(register_address(register), local),
{
    code.push(VmInstr::I32Const(register.address() as i32 * 4));
    code.push(VmInstr::I32Load(0));
    code.push(VmInstr::I32Const(2));
    code.push(VmInstr::I32Shl);
    code.push(VmInstr::LocalSet(local));
    assert(code@ =~= old(code)@ + register_load(register_address(register), local));
}

fn push_register_store(code: &mut Vec<VmInstr>, register: Register, local: VmLocal)
    requires
        !(register is TEMP),
    ensures
        final(code)@ == old(code)@ + register_store(register_address(register), local),
{
    code.push(VmInstr::I32Const(register.address() as i32 * 4));
    code.push(VmInstr::LocalGet(local));
    code.push(VmInstr::I32Const(2));
    code.push(VmInstr::I32ShrU);
    code.push(VmInstr::I32Store(0));
    assert(code@ =~= old(code)@ + register_store(register_address(register), local));
}

fn push_register_loads(code: &mut Vec<VmInstr>)
    ensures
        final(code)@ == old(code)@ + load_registers_code(),
{
    push_register_load(code, Register::SP, VmLocal::Sp);
    push_register_load(code, Register::LCL, VmLocal::Lcl);
    push_register_load(code, Register::ARG, VmLocal::Arg);
    push_register_load(code, Register::THIS, VmLocal::This);
    push_register_load(code, Register::THAT, VmLocal::That);
    assert(code@ =~= old(code)@ + load_registers_code());
}

fn push_register_stores(code: &mut Vec<VmInstr>)
    ensures
        final(code)@ == old(code)@ + store_registers_code(),
{
    push_register_store(code, Register::SP, VmLocal::Sp);
    push_register_store(code, Register::LCL, VmLocal::Lcl);
    push_register_store(code, Register::ARG, VmLocal::Arg);
    push_register_store(code, Register::THIS, VmLocal::This);
    push_register_store(code, Register::THAT, VmLocal::That);
    assert(code@ =~= old(code)@ + store_registers_code());
}

fn push_blocks(code: &mut Vec<VmInstr>, count: usize)
    ensures
        final(code)@ == old(code)@ + Seq::new(count as nat, |_i: int| VmInstr::Block),
{
    let ghost start = code@;
    let mut b: usize = 0;
    while b < count
        invariant
            b <= count,
            code@ == start + Seq::new(b as nat, |_i: int| VmInstr::Block),
        decreases count - b,
    {
        code.push(VmInstr::Block);
        assert(code@ =~= start + Seq::new((b + 1) as nat, |_i: int| VmInstr::Block));
        b = b + 1;
    }
}

fn push_arm(code: &mut Vec<VmInstr>, arm: &Vec<VmInstr>)
    ensures
        final(code)@ == old(code)@ + seq![VmInstr::End] + arm@,
{
    code.push(VmInstr::End);
    let ghost start = code@;
    let mut j: usize = 0;
    while j < arm.len()
        invariant
            j <= arm@.len(),
            start == old(code)@ + seq![VmInstr::End],
            code@ == start + arm@.take(j as int),
        decreases arm@.len() - j,
    {
        code.push(arm[j]);
        assert(arm@.take(j + 1) =~= arm@.take(j as int).push(arm@[j as int]));
        assert(code@ =~= start + arm@.take(j + 1));
        j = j + 1;
    }
    assert(arm@.take(j as int) =~= arm@);
}

/// Appends the switch on the jump target over `cases`.
fn push_switch(code: &mut Vec<VmInstr>, cases: &Vec<Vec<VmInstr>>)
    requires
        cases@.len() < i32::MAX,
    ensures
        final(code)@ == old(code)@ + switch_code(vm_case_views(cases@)),
{
    let ghost views = vm_case_views(cases@);
    let ghost arms = views.push(seq![VmInstr::Unreachable]);
    let case_count = cases.len();
    push_blocks(code, case_count + 1);
    code.push(VmInstr::LocalGet(VmLocal::JumpTarget));
    code.push(VmInstr::BrTable(case_count as u32));
    let ghost before_arms = code@;
    assert(arms.take(0) =~= Seq::<Seq<VmInstr>>::empty());
    assert(code@ =~= before_arms + switch_arms(arms.take(0)));
    let mut k: usize = 0;
    while k < case_count
        invariant
            case_count == cases@.len() < i32::MAX,
            views == vm_case_views(cases@),
            arms == views.push(seq![VmInstr::Unreachable]),
            k <= case_count,
            code@ == before_arms + switch_arms(arms.take(k as int)),
        decreases case_count - k,
    {
        push_arm(code, &cases[k]);
        proof {
            assert(arms.take(k + 1).drop_last() =~= arms.take(k as int));
            assert(arms.take(k + 1).last() == cases@[k as int]@);
            assert(code@ =~= before_arms + switch_arms(arms.take(k + 1)));
        }
        k = k + 1;
    }
    let last = vec![VmInstr::Unreachable];
    push_arm(code, &last);
    proof {
        assert(last@ =~= seq![VmInstr::Unreachable]);
        assert(arms.drop_last() =~= arms.take(k as int));
        assert(code@ =~= before_arms + switch_arms(arms));
        assert(code@ =~= old(code)@ + switch_code(views));
    }
}

/// The body of the compiled function that runs a program's cases in a dispatch loop;
/// `with_limit` gives it a parameter, the number of commands after which it returns.
pub fn expression_from_cases(cases: Vec<Vec<VmInstr>>, with_limit: bool) -> (code: Vec<VmInstr>)
    requires
        cases@.len() < i32::MAX,
    ensures
        code@ == dispatch_code(vm_case_views(cases@), with_limit),
{
    let mut code: Vec<VmInstr> = Vec::new();
    code.push(VmInstr::GlobalGet(VmGlobal::JumpTarget));
    code.push(VmInstr::LocalSet(VmLocal::JumpTarget));
    push_register_loads(&mut code);
    code.push(VmInstr::Loop);
    if with_limit {
        code.push(VmInstr::LocalGet(VmLocal::Ticks));
        code.push(VmInstr::LocalGet(VmLocal::Limit));
        code.push(VmInstr::I32GeU);
        code.push(VmInstr::If);
        code.push(VmInstr::LocalGet(VmLocal::JumpTarget));
        code.push(VmInstr::GlobalSet(VmGlobal::JumpTarget));
        code.push(VmInstr::LocalGet(VmLocal::Ticks));
        push_register_stores(&mut code);
        code.push(VmInstr::Return);
        code.push(VmInstr::End);
    }
    let ghost head = code@;
    assert(head =~= seq![VmInstr::GlobalGet(VmGlobal::JumpTarget), VmInstr::LocalSet(VmLocal::JumpTarget)]
        + load_registers_code() + seq![VmInstr::Loop] + (if with_limit {
        limit_code()
    } else {
        seq![]
    }));
    push_switch(&mut code, &cases);
    code.push(VmInstr::End);
    code.push(VmInstr::I32Const(cases.len() as i32));
    code.push(VmInstr::GlobalSet(VmGlobal::JumpTarget));
    push_register_stores(&mut code);
    code.push(VmInstr::LocalGet(VmLocal::Ticks));
    assert(code@ =~= dispatch_code(vm_case_views(cases@), with_limit));
    code
}

/// What the first pass of dynamic dispatch finds: the command index of each label (under
/// `function.label`), of each function and of each command that follows a call, the index
/// of `Sys.init`, and the current function.
pub struct DynScan {
    pub labels: Map<Seq<char>, i32>,
    pub functions: Map<Seq<char>, i32>,
    pub calls: Map<usize, i32>,
    pub start_case: Option<int>,
    pub function_name: Option<Seq<char>>,
}

/// The first pass of dynamic dispatch at command `i`; `None` for a label outside any
/// function.
pub open spec fn dyn_scan_command(st: DynScan, i: int, c: Command) -> Option<DynScan> {
    match c {
        Command::Label(name) => match st.function_name {
            None => None,
            Some(f) => Some(DynScan { labels: st.labels.insert(label_key(f, name), i as i32), ..st }),
        },
        Command::Function(name, _) => Some(
            DynScan {
                function_name: Some(name),
                start_case: if name == "Sys.init"@ { Some(i) } else { st.start_case },
                functions: st.functions.insert(name, i as i32),
                ..st
            },
        ),
        Command::Call(_, _) => Some(DynScan { calls: st.calls.insert((i + 1) as usize, (i + 1) as i32), ..st }),
        _ => Some(st),
    }
}

/// The first pass of dynamic dispatch over the first `n` commands.
pub open spec fn dyn_scan(flat: Seq<(Word, Command)>, n: int) -> Option<DynScan>
    decreases n,
{
    if n <= 0 {
        Some(
            DynScan {
                labels: Map::empty(),
                functions: Map::empty(),
                calls: Map::empty(),
                start_case: None,
                function_name: None,
            },
        )
    } else {
        match dyn_scan(flat, n - 1) {
            None => None,
            Some(st) => dyn_scan_command(st, n - 1, flat[n - 1].1),
        }
    }
}

/// What the first pass of dynamic dispatch finds in a program.
pub open spec fn dyn_program_scan(files: Seq<FileSpec>, commands: Seq<Command>) -> DynScan {
    let flat = flat_commands(files, commands);
    dyn_scan(flat, flat.len() as int).unwrap()
}

/// The current function of the second pass after its first `n` commands; it starts with
/// the function that the first pass ended in.
pub open spec fn dyn_function_after(flat: Seq<(Word, Command)>, initial: Option<Seq<char>>, n: int) -> Option<
    Seq<char>,
>
    decreases n,
{
    if n <= 0 {
        initial
    } else {
        match flat[n - 1].1 {
            Command::Function(name, _) => Some(name),
            _ => dyn_function_after(flat, initial, n - 1),
        }
    }
}

/// The current function of the second pass at command `i`.
pub open spec fn dyn_function_at(flat: Seq<(Word, Command)>, initial: Option<Seq<char>>, i: int) -> Option<
    Seq<char>,
> {
    dyn_function_after(flat, initial, i + 1)
}

/// The code of command `i` compiled on its own, jumping through the dispatch loop.
pub open spec fn dyn_command_body(scan: DynScan, function_name: Option<Seq<char>>, i: int, ss: Word, c: Command) -> (
    Seq<VmInstr>,
    nat,
) {
    command_body(c, i, VmBranch::Loop, ss, function_name, scan.labels, scan.functions, scan.calls, 0)
}

/// The case of command `i`: its code, its kept values moved to RAM, and a jump to the next
/// command through the dispatch loop.
pub open spec fn dynamic_case(scan: DynScan, function_name: Option<Seq<char>>, i: int, ss: Word, c: Command) -> Seq<
    VmInstr,
> {
    let body = dyn_command_body(scan, function_name, i, ss, c);
    vm_tick_code() + body.0 + drop_code(body.1) + seq![
        VmInstr::I32Const((i + 1) as i32),
        VmInstr::LocalSet(VmLocal::JumpTarget),
        VmInstr::Br(VmBranch::Loop),
    ]
}

/// What dynamic dispatch compiles a program to: one case per command.
pub open spec fn dynamic_program_cases(files: Seq<FileSpec>, commands: Seq<Command>) -> Seq<Seq<VmInstr>> {
    let flat = flat_commands(files, commands);
    let scan = dyn_program_scan(files, commands);
    Seq::new(
        flat.len(),
        |i: int| dynamic_case(scan, dyn_function_at(flat, scan.function_name, i), i, flat[i].0, flat[i].1),
    )
}

/// A program can be compiled with dynamic dispatch: its files lie within its commands, the
/// first pass finds no label outside a function, and every command can be compiled on its
/// own.
pub open spec fn dynamic_compilable(files: Seq<FileSpec>, commands: Seq<Command>) -> bool {
    let flat = flat_commands(files, commands);
    let scan = dyn_program_scan(files, commands);
    &&& forall|k: int| 0 <= k < files.len() ==> files[k].starting_command_index + files[k].command_count
        <= commands.len()
    &&& flat.len() <= 0x3fff_ffff
    &&& dyn_scan(flat, flat.len() as int) is Some
    &&& forall|i: int|
        0 <= i < flat.len() ==> {
            &&& dyn_command_body(scan, #[trigger] dyn_function_at(flat, scan.function_name, i), i, flat[i].0, flat[i].1).1
                <= 0x8000
            &&& command_compilable(
                flat[i].1,
                i,
                VmBranch::Loop,
                flat[i].0,
                dyn_function_at(flat, scan.function_name, i),
                scan.labels,
                scan.functions,
                scan.calls,
                0,
            )
        }
}

/// The tables that the first pass of dynamic dispatch fills.
pub struct DynTables {
    pub labels: NameIndices,
    pub functions: NameIndices,
    pub calls: CommandIndices,
    pub start_case: Option<i32>,
    pub function_name: Option<String>,
}

/// The tables hold what the first pass has found.
pub open spec fn dyn_tables_hold(t: DynTables, scan: DynScan) -> bool {
    &&& t.labels@ == scan.labels
    &&& t.functions@ == scan.functions
    &&& t.calls@ == scan.calls
    &&& t.start_case == match scan.start_case {
        Some(c) => Some(c as i32),
        None => None::<i32>,
    }
    &&& owned_name_view(t.function_name) == scan.function_name
}

proof fn lemma_dyn_scan_prefix(flat: Seq<(Word, Command)>, i: int, n: int)
    requires
        0 <= i <= n,
        dyn_scan(flat, n) is Some,
    ensures
        dyn_scan(flat, i) is Some,
    decreases n - i,
{
    if i < n {
        lemma_dyn_scan_prefix(flat, i + 1, n);
    }
}

proof fn lemma_dyn_scan_start(flat: Seq<(Word, Command)>, i: int)
    requires
        0 <= i,
        dyn_scan(flat, i) is Some,
    ensures
        dyn_scan(flat, i).unwrap().start_case matches Some(c) ==> 0 <= c < i,
    decreases i,
{
    if i > 0 {
        lemma_dyn_scan_start(flat, i - 1);
    }
}

/// The first pass of dynamic dispatch over the flattened commands.
fn scan_program_dynamic(flat: &Vec<(Word, VMCommand)>) -> (t: DynTables)
    requires
        flat@.len() <= 0x3fff_ffff,
        dyn_scan(flat_view(flat@), flat@.len() as int) is Some,
    ensures
        dyn_tables_hold(t, dyn_scan(flat_view(flat@), flat@.len() as int).unwrap()),
{
    let ghost fv = flat_view(flat@);
    let mut t = DynTables {
        labels: NameIndices::new(),
        functions: NameIndices::new(),
        calls: CommandIndices::new(),
        start_case: None,
        function_name: None,
    };
    let mut i: usize = 0;
    while i < flat.len()
        invariant
            i <= flat@.len() <= 0x3fff_ffff,
            fv == flat_view(flat@),
            dyn_scan(fv, flat@.len() as int) is Some,
            dyn_scan(fv, i as int) is Some,
            dyn_tables_hold(t, dyn_scan(fv, i as int).unwrap()),
        decreases flat@.len() - i,
    {
        proof {
            lemma_dyn_scan_prefix(fv, i + 1, flat@.len() as int);
        }
        let ghost next = dyn_scan(fv, i + 1).unwrap();
        assert(fv[i as int] == (flat@[i as int].0, flat@[i as int].1@));
        match &flat[i].1 {
            VMCommand::Label { name } => {
                let f = t.function_name.as_ref().unwrap();
                let key = label_key_exec(f, name);
                t.labels.insert(key, i as i32);
            },
            VMCommand::Function { name, .. } => {
                let cs = str_chars(name.as_str());
                if chars_eq_str(&cs, "Sys.init") {
                    t.start_case = Some(i as i32);
                }
                t.functions.insert(name.clone(), i as i32);
                t.function_name = Some(name.clone());
            },
            VMCommand::Call { .. } => {
                t.calls.insert(i + 1, i as i32 + 1);
            },
            _ => {},
        }
        assert(dyn_tables_hold(t, next));
        i = i + 1;
    }
    t
}

/// Compiles a program for a dispatch loop in which each command is a case of its own,
/// every jump going back through the loop. Returns the cases and the index of `Sys.init`
/// (0 where there is none).
pub fn program_to_dynamic_cases(program: &Program) -> (r: (Vec<Vec<VmInstr>>, i32))
    requires
        dynamic_compilable(files_of(program.files@), commands_of(program.all_commands@)),
    ensures
        vm_case_views(r.0@) == dynamic_program_cases(files_of(program.files@), commands_of(program.all_commands@)),
        r.1 == match dyn_program_scan(files_of(program.files@), commands_of(program.all_commands@)).start_case {
            Some(c) => c as i32,
            None => 0i32,
        },
{
    let ghost files = files_of(program.files@);
    let ghost commands = commands_of(program.all_commands@);
    assert forall|k: int|
        0 <= k < program.files@.len() implies program.files@[k].starting_command_index
            + program.files@[k].command_count <= program.all_commands@.len() by {
        assert(files[k] == program.files@[k]@);
    }
    let flat = flatten(program);
    let ghost fv = flat_view(flat@);
    let t = scan_program_dynamic(&flat);
    let ghost scan = dyn_program_scan(files, commands);
    let ghost all = dynamic_program_cases(files, commands);
    let mut function_name: Option<String> = match &t.function_name {
        Some(name) => Some(name.clone()),
        None => None,
    };
    let mut cases: Vec<Vec<VmInstr>> = Vec::new();
    assert(vm_case_views(cases@) =~= all.take(0));
    let mut i: usize = 0;
    while i < flat.len()
        invariant
            i <= flat@.len() <= 0x3fff_ffff,
            fv == flat_view(flat@),
            fv == flat_commands(files, commands),
            scan == dyn_program_scan(files, commands),
            all == dynamic_program_cases(files, commands),
            dynamic_compilable(files, commands),
            dyn_tables_hold(t, scan),
            owned_name_view(function_name) == dyn_function_after(fv, scan.function_name, i as int),
            vm_case_views(cases@) == all.take(i as int),
        decreases flat@.len() - i,
    {
        assert(fv[i as int] == (flat@[i as int].0, flat@[i as int].1@));
        let ss = flat[i].0;
        let command = &flat[i].1;
        if let VMCommand::Function { name, .. } = command {
            function_name = Some(name.clone());
        }
        assert(owned_name_view(function_name) == dyn_function_at(fv, scan.function_name, i as int));
        let mut stack_size: usize = 0;
        let mut code = command_to_wasm2(
            command,
            i,
            VmBranch::Loop,
            ss,
            function_name.as_ref(),
            &t.labels,
            &t.functions,
            &t.calls,
            &mut stack_size,
        );
        drop_stack_to_ram(&mut stack_size, &mut code);
        code.push(VmInstr::I32Const(i as i32 + 1));
        code.push(VmInstr::LocalSet(VmLocal::JumpTarget));
        code.push(VmInstr::Br(VmBranch::Loop));
        assert(code@ =~= all[i as int]);
        let ghost before = cases@;
        cases.push(code);
        assert(vm_case_views(cases@) =~= all.take(i + 1)) by {
            assert(vm_case_views(cases@) =~= vm_case_views(before).push(all[i as int]));
            assert(all.take(i + 1) =~= all.take(i as int).push(all[i as int]));
        }
        i = i + 1;
    }
    assert(all.take(i as int) =~= all);
    proof {
        lemma_dyn_scan_start(fv, fv.len() as int);
    }
    let start_case = match t.start_case {
        Some(c) => c,
        None => 0,
    };
    (cases, start_case)
}

} // verus!

use vstd::prelude::*;
use vstd::wrapping::{i16_specs, i32_specs};

use crate::hack_to_wasm::{bool_word, extend16};
use crate::hardware::{Word, MEM_SIZE};
use crate::os::{arg, clear_screen_spec, os_call, os_effect, os_function, trunc_div, OsFunction};
use crate::vm::{
    vm_steps, binary_ram, push_frame, return_ram, restore_registers, count_call, push_zeros, jump_target, pop_address, pop_ram, push_ram, push_value, truth, unary_ram, vm_step, Command,
    PopSegment, ProgramSpec, PushSegment, RunSpec,
};
use crate::vm_to_wasm::{
    binary_code, call_code, dyn_scan, function_code, label_key, label_target_code, return_code, save_frame_code, command_body, drop_code, drop_stores, dyn_command_body, dynamic_case, pop_base_code, prepare1, prepare2, push_value_code,
    truth_code, unary_code, vm_tick_code, word_offset, memory_init_code, dealloc_code, DynScan, VmBranch, VmInstr, VmLocal,
};

verus! {

/// What the straight-line code of a compiled VM command works on: the operand stack, the
/// locals, linear memory as 32-bit words (word `i` at byte address `4 * i`), and the
/// branch once one is taken.
pub struct VmFrame {
    pub stack: Seq<i32>,
    pub ticks: i32,
    pub sp: i32,
    pub lcl: i32,
    pub arg: i32,
    pub this: i32,
    pub that: i32,
    pub jump_target: i32,
    pub temp: i32,
    pub temp2: i32,
    pub temp3: i32,
    pub limit: i32,
    pub memory: Seq<i32>,
    pub branch: Option<VmBranch>,
}

/// The value of a local.
pub open spec fn frame_local(f: VmFrame, l: VmLocal) -> i32 {
    match l {
        VmLocal::Ticks => f.ticks,
        VmLocal::Sp => f.sp,
        VmLocal::Lcl => f.lcl,
        VmLocal::Arg => f.arg,
        VmLocal::This => f.this,
        VmLocal::That => f.that,
        VmLocal::JumpTarget => f.jump_target,
        VmLocal::Temp => f.temp,
        VmLocal::Temp2 => f.temp2,
        VmLocal::Temp3 => f.temp3,
        VmLocal::Limit => f.limit,
    }
}

/// The frame with one local changed.
pub open spec fn with_local(f: VmFrame, l: VmLocal, v: i32) -> VmFrame {
    match l {
        VmLocal::Ticks => VmFrame { ticks: v, ..f },
        VmLocal::Sp => VmFrame { sp: v, ..f },
        VmLocal::Lcl => VmFrame { lcl: v, ..f },
        VmLocal::Arg => VmFrame { arg: v, ..f },
        VmLocal::This => VmFrame { this: v, ..f },
        VmLocal::That => VmFrame { that: v, ..f },
        VmLocal::JumpTarget => VmFrame { jump_target: v, ..f },
        VmLocal::Temp => VmFrame { temp: v, ..f },
        VmLocal::Temp2 => VmFrame { temp2: v, ..f },
        VmLocal::Temp3 => VmFrame { temp3: v, ..f },
        VmLocal::Limit => VmFrame { limit: v, ..f },
    }
}

/// The result of a binary instruction on the operands `x` (pushed first) and `y`.
pub open spec fn vm_binary_result(i: VmInstr, x: i32, y: i32) -> Option<i32> {
    match i {
        VmInstr::I32Add => Some(i32_specs::wrapping_add(x, y)),
        VmInstr::I32Sub => Some(i32_specs::wrapping_sub(x, y)),
        VmInstr::I32And => Some(x & y),
        VmInstr::I32Or => Some(x | y),
        VmInstr::I32Xor => Some(x ^ y),
        VmInstr::I32Shl => Some(i32_specs::wrapping_shl(x, y as u32)),
        VmInstr::I32ShrS => Some(x >> ((y as u32) % 32)),
        VmInstr::I32Eq => Some(bool_word(x == y)),
        VmInstr::I32Ne => Some(bool_word(x != y)),
        VmInstr::I32GtS => Some(bool_word(x > y)),
        VmInstr::I32LtS => Some(bool_word(x < y)),
        VmInstr::I32Mul => Some(i32_specs::wrapping_mul(x, y)),
        VmInstr::I32DivS => if y == 0 || (x == i32::MIN && y == -1) {
            None
        } else {
            Some(trunc_div(x as int, y as int) as i32)
        },
        _ => None,
    }
}

/// The memory word that a 4-byte access at byte address `p` plus `offset` reaches; `None`
/// for a negative (as an unsigned address, 2^31 or more), unaligned or out-of-range
/// address.
pub open spec fn frame_word(memory: Seq<i32>, p: i32, offset: u64) -> Option<int> {
    let a = p + offset;
    if 0 <= p && a % 4 == 0 && a / 4 < memory.len() {
        Some(a / 4)
    } else {
        None
    }
}

/// The word whose four bytes are the low byte of `v`.
pub open spec fn fill_word(v: i32) -> i32 {
    (((v as int) % 256) * 0x01010101) as i32
}

/// Memory with words `from` up to `to` set to `w`.
pub open spec fn filled(memory: Seq<i32>, from: int, to: int, w: i32) -> Seq<i32> {
    Seq::new(memory.len(), |a: int| if from <= a < to { w } else { memory[a] })
}

/// One instruction of straight-line code; `None` where it traps, finds too few operands,
/// or is one that such code does not hold (globals, blocks, calls of the runtime); a fill
/// is modelled where it covers whole words.
pub open spec fn frame_step(f: VmFrame, i: VmInstr) -> Option<VmFrame> {
    let st = f.stack;
    let n = st.len();
    match i {
        VmInstr::I32Const(c) => Some(VmFrame { stack: st.push(c), ..f }),
        VmInstr::LocalGet(l) => Some(VmFrame { stack: st.push(frame_local(f, l)), ..f }),
        VmInstr::LocalSet(l) => if n >= 1 {
            Some(with_local(VmFrame { stack: st.drop_last(), ..f }, l, st.last()))
        } else {
            None
        },
        VmInstr::LocalTee(l) => if n >= 1 {
            Some(with_local(f, l, st.last()))
        } else {
            None
        },
        VmInstr::I32Extend16S => if n >= 1 {
            Some(VmFrame { stack: st.drop_last().push(extend16(st.last())), ..f })
        } else {
            None
        },
        VmInstr::I32Eqz => if n >= 1 {
            Some(VmFrame { stack: st.drop_last().push(bool_word(st.last() == 0)), ..f })
        } else {
            None
        },
        VmInstr::I32Load(offset) => if n >= 1 {
            match frame_word(f.memory, st.last(), offset) {
                Some(w) => Some(VmFrame { stack: st.drop_last().push(f.memory[w]), ..f }),
                None => None,
            }
        } else {
            None
        },
        VmInstr::I32Store(offset) => if n >= 2 {
            match frame_word(f.memory, st[n - 2], offset) {
                Some(w) => Some(
                    VmFrame { stack: st.subrange(0, n - 2), memory: f.memory.update(w, st[n - 1]), ..f },
                ),
                None => None,
            }
        } else {
            None
        },
        VmInstr::MemoryFill => if n >= 3 {
            let d = st[n - 3];
            let count = st[n - 1];
            if 0 <= d && d % 4 == 0 && 0 <= count && count % 4 == 0 && (d + count) / 4 <= f.memory.len() {
                Some(
                    VmFrame {
                        stack: st.subrange(0, n - 3),
                        memory: filled(f.memory, d / 4, (d + count) / 4, fill_word(st[n - 2])),
                        ..f
                    },
                )
            } else {
                None
            }
        } else {
            None
        },
        VmInstr::Br(t) => Some(VmFrame { branch: Some(t), ..f }),
        VmInstr::BrIf(t) => if n >= 1 {
            Some(
                VmFrame {
                    stack: st.drop_last(),
                    branch: if st.last() != 0 { Some(t) } else { f.branch },
                    ..f
                },
            )
        } else {
            None
        },
        _ => if n >= 2 {
            match vm_binary_result(i, st[n - 2], st[n - 1]) {
                Some(r) => Some(VmFrame { stack: st.subrange(0, n - 2).push(r), ..f }),
                None => None,
            }
        } else {
            None
        },
    }
}

/// Runs `code` from index `i`; once a branch is taken the rest is skipped.
pub open spec fn frame_run_from(code: Seq<VmInstr>, i: int, f: VmFrame) -> Option<VmFrame>
    decreases code.len() - i,
{
    if f.branch is Some || i < 0 || i >= code.len() {
        Some(f)
    } else {
        match frame_step(f, code[i]) {
            None => None,
            Some(g) => frame_run_from(code, i + 1, g),
        }
    }
}

/// Runs straight-line code from its start.
pub open spec fn frame_run(code: Seq<VmInstr>, f: VmFrame) -> Option<VmFrame> {
    frame_run_from(code, 0, f)
}

/// Goes on with more code from where a run left off.
pub open spec fn frame_then(r: Option<VmFrame>, code: Seq<VmInstr>) -> Option<VmFrame> {
    match r {
        Some(g) => frame_run(code, g),
        None => None,
    }
}

proof fn lemma_frame_run_suffix(c1: Seq<VmInstr>, c2: Seq<VmInstr>, j: int, f: VmFrame)
    requires
        0 <= j <= c2.len(),
    ensures
        frame_run_from(c1 + c2, c1.len() + j, f) == frame_run_from(c2, j, f),
    decreases c2.len() - j,
{
    if j < c2.len() && f.branch is None {
        assert((c1 + c2)[c1.len() + j] == c2[j]);
        if let Some(g) = frame_step(f, c2[j]) {
            lemma_frame_run_suffix(c1, c2, j + 1, g);
        }
    }
}

proof fn lemma_frame_run_prefix(c1: Seq<VmInstr>, c2: Seq<VmInstr>, i: int, f: VmFrame)
    requires
        0 <= i <= c1.len(),
    ensures
        frame_run_from(c1 + c2, i, f) == frame_then(frame_run_from(c1, i, f), c2),
    decreases c1.len() - i,
{
    if i == c1.len() {
        lemma_frame_run_suffix(c1, c2, 0, f);
    } else if f.branch is None {
        assert((c1 + c2)[i] == c1[i]);
        if let Some(g) = frame_step(f, c1[i]) {
            lemma_frame_run_prefix(c1, c2, i + 1, g);
        }
    }
}

/// Running `c1 + c2` runs `c1`, then `c2` from where `c1` left off.
pub proof fn lemma_frame_run_concat(c1: Seq<VmInstr>, c2: Seq<VmInstr>, f: VmFrame)
    ensures
        frame_run(c1 + c2, f) == frame_then(frame_run(c1, f), c2),
{
    lemma_frame_run_prefix(c1, c2, 0, f);
}

/// The frame holds the VM's RAM: SP, LCL, ARG, THIS and THAT in their locals as byte
/// addresses, and every other word in memory (the memory words of those five registers
/// are not read while the code runs).
pub open spec fn frame_holds(f: VmFrame, ram: Seq<Word>) -> bool {
    &&& ram.len() == MEM_SIZE
    &&& f.memory.len() == ram.len()
    &&& f.sp == ram[0] * 4
    &&& f.lcl == ram[1] * 4
    &&& f.arg == ram[2] * 4
    &&& f.this == ram[3] * 4
    &&& f.that == ram[4] * 4
    &&& forall|a: int| 5 <= a < ram.len() ==> f.memory[a] == ram[a] as i32
}

/// The frame holds the VM's RAM where the words in `scaled` are held as the compiled code
/// saves a caller's registers: as byte addresses, four times the RAM's word; every other
/// word from 5 on is held as it is, and SP, LCL, ARG, THIS and THAT are in their locals.
pub open spec fn frame_holds_scaled(f: VmFrame, ram: Seq<Word>, scaled: Set<int>) -> bool {
    &&& ram.len() == MEM_SIZE
    &&& f.memory.len() == ram.len()
    &&& f.sp == ram[0] * 4
    &&& f.lcl == ram[1] * 4
    &&& f.arg == ram[2] * 4
    &&& f.this == ram[3] * 4
    &&& f.that == ram[4] * 4
    &&& forall|a: int|
        5 <= a < ram.len() ==> #[trigger] f.memory[a] == if scaled.contains(a) {
            (ram[a] * 4) as i32
        } else {
            ram[a] as i32
        }
}

proof fn lemma_tick(f: VmFrame)
    requires
        f.branch is None,
    ensures
        frame_run(vm_tick_code(), f) == Some(VmFrame { ticks: i32_specs::wrapping_add(1, f.ticks), ..f }),
{
    reveal_with_fuel(frame_run_from, 5);
    let st = f.stack;
    assert(st.push(1).push(f.ticks).subrange(0, st.len() as int) =~= st);
    assert(st.push(i32_specs::wrapping_add(1, f.ticks)).drop_last() =~= st);
}

/// The code that makes command `i + 1` the next case and goes back to the dispatch loop.
pub open spec fn next_case_code(i: int) -> Seq<VmInstr> {
    seq![VmInstr::I32Const((i + 1) as i32), VmInstr::LocalSet(VmLocal::JumpTarget), VmInstr::Br(VmBranch::Loop)]
}

proof fn lemma_next_case(f: VmFrame, i: int)
    requires
        f.branch is None,
    ensures
        frame_run(next_case_code(i), f) == Some(
            VmFrame { jump_target: (i + 1) as i32, branch: Some(VmBranch::Loop), ..f },
        ),
{
    reveal_with_fuel(frame_run_from, 4);
    assert(f.stack.push((i + 1) as i32).drop_last() =~= f.stack);
}

/// Storing the value on the operand stack at SP and raising SP: a push.
#[verifier::spinoff_prover]
#[verifier::rlimit(30)]
proof fn lemma_store_top(f: VmFrame, ram: Seq<Word>, v: Word, sc: Set<int>)
    requires
        frame_holds_scaled(f, ram, sc),
        f.stack == seq![v as i32],
        f.branch is None,
        5 <= ram[0] < i16::MAX,
    ensures
        push_ram(ram, v) is Some,
        frame_run(drop_code(1), f) == Some(
            VmFrame {
                stack: Seq::empty(),
                sp: (f.sp + 4) as i32,
                temp: v as i32,
                memory: f.memory.update(ram[0] as int, v as i32),
                ..f
            },
        ),
        frame_holds_scaled(
            VmFrame {
                stack: Seq::empty(),
                sp: (f.sp + 4) as i32,
                temp: v as i32,
                memory: f.memory.update(ram[0] as int, v as i32),
                ..f
            },
            push_ram(ram, v).unwrap(),
            sc.remove(ram[0] as int),
        ),
{
    reveal_with_fuel(drop_stores, 2);
    let code = seq![
        VmInstr::LocalSet(VmLocal::Temp),
        VmInstr::LocalGet(VmLocal::Sp),
        VmInstr::LocalGet(VmLocal::Temp),
        VmInstr::I32Store(0),
        VmInstr::LocalGet(VmLocal::Sp),
        VmInstr::I32Const(4),
        VmInstr::I32Add,
        VmInstr::LocalSet(VmLocal::Sp),
    ];
    assert(drop_code(1) =~= code);
    let e: Seq<i32> = Seq::empty();
    let x = v as i32;
    let f1 = VmFrame { stack: e, temp: x, ..f };
    assert(seq![x].drop_last() =~= e);
    assert(frame_step(f, code[0]) == Some(f1));
    let f2 = VmFrame { stack: e.push(f.sp), ..f1 };
    assert(frame_step(f1, code[1]) == Some(f2));
    let f3 = VmFrame { stack: e.push(f.sp).push(x), ..f1 };
    assert(frame_step(f2, code[2]) == Some(f3));
    let m = f.memory.update(ram[0] as int, x);
    let f4 = VmFrame { stack: e, memory: m, ..f1 };
    assert(e.push(f.sp).push(x).subrange(0, 0) =~= e);
    assert(frame_word(f.memory, f.sp, 0) == Some(ram[0] as int));
    assert(frame_step(f3, code[3]) == Some(f4));
    let f5 = VmFrame { stack: e.push(f.sp), ..f4 };
    assert(frame_step(f4, code[4]) == Some(f5));
    let f6 = VmFrame { stack: e.push(f.sp).push(4), ..f4 };
    assert(frame_step(f5, code[5]) == Some(f6));
    let sum = i32_specs::wrapping_add(f.sp, 4);
    let f7 = VmFrame { stack: e.push(sum), ..f4 };
    assert(e.push(f.sp).push(4).subrange(0, 0) =~= e);
    assert(frame_step(f6, code[6]) == Some(f7));
    let f8 = VmFrame { stack: e, sp: sum, ..f4 };
    assert(e.push(sum).drop_last() =~= e);
    assert(frame_step(f7, code[7]) == Some(f8));
    assert(frame_run_from(code, 8, f8) == Some(f8));
    assert(frame_run_from(code, 7, f7) == Some(f8));
    assert(frame_run_from(code, 6, f6) == Some(f8));
    assert(frame_run_from(code, 5, f5) == Some(f8));
    assert(frame_run_from(code, 4, f4) == Some(f8));
    assert(frame_run_from(code, 3, f3) == Some(f8));
    assert(frame_run_from(code, 2, f2) == Some(f8));
    assert(frame_run_from(code, 1, f1) == Some(f8));
    assert(frame_run_from(code, 0, f) == Some(f8));
    assert(f8 == VmFrame { stack: Seq::empty(), sp: (f.sp + 4) as i32, temp: x, memory: m, ..f });
    let r1 = ram.update(ram[0] as int, v);
    assert(push_ram(ram, v) == Some(r1.update(0, (r1[0] + 1) as Word)));
}

/// Taking the top of the VM stack onto the operand stack: SP goes down by one.
#[verifier::spinoff_prover]
#[verifier::rlimit(30)]
proof fn lemma_take_top(f: VmFrame, ram: Seq<Word>)
    requires
        registers_held(f, ram),
        f.sp == ram[0] * 4,
        f.stack.len() == 0,
        f.branch is None,
        6 <= ram[0],
        f.memory[ram[0] - 1] == ram[ram[0] - 1] as i32,
    ensures
        frame_run(prepare1(0).0, f) == Some(
            VmFrame { stack: seq![ram[ram[0] - 1] as i32], sp: (f.sp - 4) as i32, ..f },
        ),
{
    let code = prepare1(0).0;
    let e: Seq<i32> = Seq::empty();
    assert(f.stack =~= e);
    let f1 = VmFrame { stack: e.push(f.sp), ..f };
    assert(frame_step(f, code[0]) == Some(f1));
    let f2 = VmFrame { stack: e.push(f.sp).push(4), ..f };
    assert(frame_step(f1, code[1]) == Some(f2));
    let d = i32_specs::wrapping_sub(f.sp, 4);
    let f3 = VmFrame { stack: e.push(d), ..f };
    assert(e.push(f.sp).push(4).subrange(0, 0) =~= e);
    assert(frame_step(f2, code[2]) == Some(f3));
    let f4 = VmFrame { stack: e.push(d), sp: d, ..f };
    assert(frame_step(f3, code[3]) == Some(f4));
    let top = ram[ram[0] - 1] as i32;
    let f5 = VmFrame { stack: e.push(top), sp: d, ..f };
    assert(frame_word(f.memory, d, 0) == Some(ram[0] - 1));
    assert(e.push(d).drop_last() =~= e);
    assert(frame_step(f4, code[4]) == Some(f5));
    assert(frame_run_from(code, 5, f5) == Some(f5));
    assert(frame_run_from(code, 4, f4) == Some(f5));
    assert(frame_run_from(code, 3, f3) == Some(f5));
    assert(frame_run_from(code, 2, f2) == Some(f5));
    assert(frame_run_from(code, 1, f1) == Some(f5));
    assert(frame_run_from(code, 0, f) == Some(f5));
    assert(e.push(top) =~= seq![top]);
}

/// Taking the two top values of the VM stack onto the operand stack: SP goes down by two.
#[verifier::spinoff_prover]
#[verifier::rlimit(30)]
proof fn lemma_take_two(f: VmFrame, ram: Seq<Word>)
    requires
        registers_held(f, ram),
        f.sp == ram[0] * 4,
        f.stack.len() == 0,
        f.branch is None,
        7 <= ram[0],
        f.memory[ram[0] - 2] == ram[ram[0] - 2] as i32,
        f.memory[ram[0] - 1] == ram[ram[0] - 1] as i32,
    ensures
        frame_run(prepare2(0).0, f) == Some(
            VmFrame {
                stack: seq![ram[ram[0] - 2] as i32, ram[ram[0] - 1] as i32],
                sp: (f.sp - 8) as i32,
                ..f
            },
        ),
{
    let code = prepare2(0).0;
    let e: Seq<i32> = Seq::empty();
    assert(f.stack =~= e);
    let f1 = VmFrame { stack: e.push(f.sp), ..f };
    assert(frame_step(f, code[0]) == Some(f1));
    let f2 = VmFrame { stack: e.push(f.sp).push(8), ..f };
    assert(frame_step(f1, code[1]) == Some(f2));
    let d = i32_specs::wrapping_sub(f.sp, 8);
    let f3 = VmFrame { stack: e.push(d), ..f };
    assert(e.push(f.sp).push(8).subrange(0, 0) =~= e);
    assert(frame_step(f2, code[2]) == Some(f3));
    let f4 = VmFrame { stack: e.push(d), sp: d, ..f };
    assert(frame_step(f3, code[3]) == Some(f4));
    let x = ram[ram[0] - 2] as i32;
    let y = ram[ram[0] - 1] as i32;
    let f5 = VmFrame { stack: e.push(x), sp: d, ..f };
    assert(frame_word(f.memory, d, 0) == Some(ram[0] - 2));
    assert(e.push(d).drop_last() =~= e);
    assert(frame_step(f4, code[4]) == Some(f5));
    let f6 = VmFrame { stack: e.push(x).push(d), sp: d, ..f };
    assert(frame_step(f5, code[5]) == Some(f6));
    let f7 = VmFrame { stack: e.push(x).push(y), sp: d, ..f };
    assert(frame_word(f.memory, d, 4) == Some(ram[0] - 1));
    assert(e.push(x).push(d).drop_last() =~= e.push(x));
    assert(frame_step(f6, code[6]) == Some(f7));
    assert(frame_run_from(code, 7, f7) == Some(f7));
    assert(frame_run_from(code, 6, f6) == Some(f7));
    assert(frame_run_from(code, 5, f5) == Some(f7));
    assert(frame_run_from(code, 4, f4) == Some(f7));
    assert(frame_run_from(code, 3, f3) == Some(f7));
    assert(frame_run_from(code, 2, f2) == Some(f7));
    assert(frame_run_from(code, 1, f1) == Some(f7));
    assert(frame_run_from(code, 0, f) == Some(f7));
    assert(e.push(x).push(y) =~= seq![x, y]);
}

/// What a binary command computes from the two top words, as the VM's step does.
pub open spec fn binary_word(c: Command, x: Word, y: Word) -> Word {
    match c {
        Command::Add => i16_specs::wrapping_add(x, y),
        Command::Sub => i16_specs::wrapping_sub(x, y),
        Command::Eq => truth(x == y),
        Command::Gt => truth(x > y),
        Command::Lt => truth(x < y),
        Command::And => x & y,
        _ => x | y,
    }
}

/// What a unary command computes from the top word, as the VM's step does.
pub open spec fn unary_word(c: Command, x: Word) -> Word {
    match c {
        Command::Neg => i16_specs::wrapping_sub(0, x),
        _ => x ^ -1i16,
    }
}

/// The commands whose code is an operation on the two top values.
pub open spec fn is_binary(c: Command) -> bool {
    c is Add || c is Sub || c is Eq || c is Gt || c is Lt || c is And || c is Or
}

/// The operation of a binary or unary command, as compiled.
pub open spec fn operation_code(c: Command) -> Seq<VmInstr> {
    match c {
        Command::Add => seq![VmInstr::I32Add, VmInstr::I32Extend16S],
        Command::Sub => seq![VmInstr::I32Sub, VmInstr::I32Extend16S],
        Command::Eq => truth_code(VmInstr::I32Eq),
        Command::Gt => truth_code(VmInstr::I32GtS),
        Command::Lt => truth_code(VmInstr::I32LtS),
        Command::And => seq![VmInstr::I32And, VmInstr::I32Extend16S],
        Command::Or => seq![VmInstr::I32Or, VmInstr::I32Extend16S],
        Command::Neg => seq![
            VmInstr::LocalSet(VmLocal::Temp),
            VmInstr::I32Const(0),
            VmInstr::LocalGet(VmLocal::Temp),
            VmInstr::I32Sub,
            VmInstr::I32Extend16S,
        ],
        _ => seq![VmInstr::I32Const(-1i32), VmInstr::I32Xor],
    }
}

proof fn lemma_word_logic()
    by (bit_vector)
    ensures
        forall|x: i16, y: i16| #[trigger] ((x & y) as i32) == (x as i32) & (y as i32),
        forall|x: i16, y: i16| #[trigger] ((x | y) as i32) == (x as i32) | (y as i32),
        forall|x: i16| #[trigger] ((x ^ -1i16) as i32) == (x as i32) ^ -1i32,
{
}

proof fn lemma_extend16_word(v: i32)
    requires
        i16::MIN <= v <= i16::MAX,
    ensures
        extend16(v) == v,
{
}

/// A comparison result turned into a VM truth value.
proof fn lemma_truth_op(f: VmFrame, st: Seq<i32>, x: i32, y: i32, compare: VmInstr, b: bool)
    requires
        f.branch is None,
        f.stack == st.push(x).push(y),
        vm_binary_result(compare, x, y) == Some(bool_word(b)),
    ensures
        frame_run(truth_code(compare), f) == Some(
            VmFrame { stack: st.push(truth(b) as i32), temp: bool_word(b), ..f },
        ),
{
    let code = truth_code(compare);
    let w = bool_word(b);
    let n = st.len() as int;
    let f1 = VmFrame { stack: st.push(w), ..f };
    assert(f.stack.subrange(0, n) =~= st);
    assert(frame_step(f, code[0]) == Some(f1));
    let f2 = VmFrame { stack: st, temp: w, ..f };
    assert(st.push(w).drop_last() =~= st);
    assert(frame_step(f1, code[1]) == Some(f2));
    let f3 = VmFrame { stack: st.push(0), ..f2 };
    assert(frame_step(f2, code[2]) == Some(f3));
    let f4 = VmFrame { stack: st.push(0).push(w), ..f2 };
    assert(frame_step(f3, code[3]) == Some(f4));
    let r = i32_specs::wrapping_sub(0, w);
    let f5 = VmFrame { stack: st.push(r), ..f2 };
    assert(st.push(0).push(w).subrange(0, n) =~= st);
    assert(frame_step(f4, code[4]) == Some(f5));
    assert(frame_run_from(code, 5, f5) == Some(f5));
    assert(frame_run_from(code, 4, f4) == Some(f5));
    assert(frame_run_from(code, 3, f3) == Some(f5));
    assert(frame_run_from(code, 2, f2) == Some(f5));
    assert(frame_run_from(code, 1, f1) == Some(f5));
    assert(frame_run_from(code, 0, f) == Some(f5));
}

/// An operation and a sign extension of its result.
proof fn lemma_extended_op(f: VmFrame, st: Seq<i32>, x: i32, y: i32, op: VmInstr, r: i32)
    requires
        f.branch is None,
        f.stack == st.push(x).push(y),
        vm_binary_result(op, x, y) == Some(r),
    ensures
        frame_run(seq![op, VmInstr::I32Extend16S], f) == Some(VmFrame { stack: st.push(extend16(r)), ..f }),
{
    let code = seq![op, VmInstr::I32Extend16S];
    let n = st.len() as int;
    let f1 = VmFrame { stack: st.push(r), ..f };
    assert(f.stack.subrange(0, n) =~= st);
    assert(frame_step(f, code[0]) == Some(f1));
    let f2 = VmFrame { stack: st.push(extend16(r)), ..f };
    assert(st.push(r).drop_last() =~= st);
    assert(frame_step(f1, code[1]) == Some(f2));
    assert(frame_run_from(code, 2, f2) == Some(f2));
    assert(frame_run_from(code, 1, f1) == Some(f2));
    assert(frame_run_from(code, 0, f) == Some(f2));
}

/// The operation of a binary command on the two top values leaves the VM's result.
proof fn lemma_binary_op(f: VmFrame, st: Seq<i32>, c: Command, x: Word, y: Word)
    requires
        is_binary(c),
        f.branch is None,
        f.stack == st.push(x as i32).push(y as i32),
    ensures
        frame_run(operation_code(c), f) matches Some(g) && g == (VmFrame {
            stack: st.push(binary_word(c, x, y) as i32),
            temp: g.temp,
            ..f
        }),
{
    lemma_word_logic();
    let a = x as i32;
    let b = y as i32;
    match c {
        Command::Add => {
            lemma_extended_op(f, st, a, b, VmInstr::I32Add, i32_specs::wrapping_add(a, b));
            lemma_extend16_word(binary_word(c, x, y) as i32);
        },
        Command::Sub => {
            lemma_extended_op(f, st, a, b, VmInstr::I32Sub, i32_specs::wrapping_sub(a, b));
        },
        Command::Eq => lemma_truth_op(f, st, a, b, VmInstr::I32Eq, x == y),
        Command::Gt => lemma_truth_op(f, st, a, b, VmInstr::I32GtS, x > y),
        Command::Lt => lemma_truth_op(f, st, a, b, VmInstr::I32LtS, x < y),
        Command::And => {
            lemma_extended_op(f, st, a, b, VmInstr::I32And, a & b);
            lemma_extend16_word((x & y) as i32);
        },
        Command::Or => {
            lemma_extended_op(f, st, a, b, VmInstr::I32Or, a | b);
            lemma_extend16_word((x | y) as i32);
        },
        _ => {},
    }
}

/// The operation of a unary command on the top value leaves the VM's result.
proof fn lemma_unary_op(f: VmFrame, st: Seq<i32>, c: Command, x: Word)
    requires
        c is Neg || c is Not,
        f.branch is None,
        f.stack == st.push(x as i32),
    ensures
        frame_run(operation_code(c), f) matches Some(g) && g == (VmFrame {
            stack: st.push(unary_word(c, x) as i32),
            temp: g.temp,
            ..f
        }),
{
    lemma_word_logic();
    let a = x as i32;
    let code = operation_code(c);
    let n = st.len() as int;
    if c is Neg {
        let f1 = VmFrame { stack: st, temp: a, ..f };
        assert(st.push(a).drop_last() =~= st);
        assert(frame_step(f, code[0]) == Some(f1));
        let f2 = VmFrame { stack: st.push(0), ..f1 };
        assert(frame_step(f1, code[1]) == Some(f2));
        let f3 = VmFrame { stack: st.push(0).push(a), ..f1 };
        assert(frame_step(f2, code[2]) == Some(f3));
        let d = i32_specs::wrapping_sub(0, a);
        let f4 = VmFrame { stack: st.push(d), ..f1 };
        assert(st.push(0).push(a).subrange(0, n) =~= st);
        assert(frame_step(f3, code[3]) == Some(f4));
        let f5 = VmFrame { stack: st.push(extend16(d)), ..f1 };
        assert(st.push(d).drop_last() =~= st);
        assert(frame_step(f4, code[4]) == Some(f5));
        assert(frame_run_from(code, 5, f5) == Some(f5));
        assert(frame_run_from(code, 4, f4) == Some(f5));
        assert(frame_run_from(code, 3, f3) == Some(f5));
        assert(frame_run_from(code, 2, f2) == Some(f5));
        assert(frame_run_from(code, 1, f1) == Some(f5));
        assert(frame_run_from(code, 0, f) == Some(f5));
    } else {
        let f1 = VmFrame { stack: st.push(a).push(-1i32), ..f };
        assert(frame_step(f, code[0]) == Some(f1));
        let f2 = VmFrame { stack: st.push(a ^ -1i32), ..f };
        assert(st.push(a).push(-1i32).subrange(0, n) =~= st);
        assert(frame_step(f1, code[1]) == Some(f2));
        assert(frame_run_from(code, 2, f2) == Some(f2));
        assert(frame_run_from(code, 1, f1) == Some(f2));
        assert(frame_run_from(code, 0, f) == Some(f2));
    }
}

/// A push from `segment` reads, in the compiled code, the word that the VM reads: the
/// address is at least 5 (the RAM of SP, LCL, ARG, THIS and THAT is held in locals), a
/// segment base is not negative, and a temp offset is 0 (the compiled code adds a temp
/// offset twice).
pub open spec fn push_compiles(ram: Seq<Word>, static_start: Word, segment: PushSegment, offset: Word) -> bool {
    match segment {
        PushSegment::Constant => true,
        PushSegment::Static => 5 <= static_start + offset,
        PushSegment::Local => 0 <= ram[1] && 5 <= ram[1] + offset && 0 <= offset,
        PushSegment::Argument => 0 <= ram[2] && 5 <= ram[2] + offset && 0 <= offset,
        PushSegment::This => 0 <= ram[3] && 5 <= ram[3] + offset && 0 <= offset,
        PushSegment::That => 0 <= ram[4] && 5 <= ram[4] + offset && 0 <= offset,
        PushSegment::Temp => offset == 0,
        PushSegment::Pointer => offset == 0 || offset == 1,
    }
}

/// A pop into `segment` writes, in the compiled code, the word that the VM writes: the
/// address is at least 5, a segment base and the offset are not negative, and a pointer
/// offset is 0 or 1.
pub open spec fn pop_compiles(ram: Seq<Word>, static_start: Word, segment: PopSegment, offset: Word) -> bool {
    match segment {
        PopSegment::Static => 0 <= static_start && 5 <= static_start + offset && 0 <= offset,
        PopSegment::Local => 0 <= ram[1] && 5 <= ram[1] + offset && 0 <= offset,
        PopSegment::Argument => 0 <= ram[2] && 5 <= ram[2] + offset && 0 <= offset,
        PopSegment::This => 0 <= ram[3] && 5 <= ram[3] + offset && 0 <= offset,
        PopSegment::That => 0 <= ram[4] && 5 <= ram[4] + offset && 0 <= offset,
        PopSegment::Temp => 0 <= offset,
        PopSegment::Pointer => offset == 0 || offset == 1,
    }
}

proof fn lemma_address_shift(v: i32)
    by (bit_vector)
    requires
        -32768 <= v <= 32767,
    ensures
        v << 2u32 == v * 4,
        (v << 2u32) >> 2u32 == v,
{
}

/// An address pushed by `first`, then a load from it.
proof fn lemma_load_word(f: VmFrame, first: VmInstr, p: i32, offset: u64, a: int)
    requires
        f.branch is None,
        frame_step(f, first) == Some(VmFrame { stack: f.stack.push(p), ..f }),
        frame_word(f.memory, p, offset) == Some(a),
    ensures
        frame_run(seq![first, VmInstr::I32Load(offset)], f) == Some(
            VmFrame { stack: f.stack.push(f.memory[a]), ..f },
        ),
{
    let code = seq![first, VmInstr::I32Load(offset)];
    let f1 = VmFrame { stack: f.stack.push(p), ..f };
    let g = VmFrame { stack: f.stack.push(f.memory[a]), ..f };
    assert(f.stack.push(p).drop_last().push(f.memory[a]) =~= f.stack.push(f.memory[a]));
    assert(frame_step(f, code[0]) == Some(f1));
    assert(frame_step(f1, code[1]) == Some(g));
    assert(frame_run_from(code, 2, g) == Some(g));
    assert(frame_run_from(code, 1, f1) == Some(g));
}

/// The RAM address that a push from a memory segment reads; `None` for the constant and
/// pointer segments, whose values the code has in hand.
pub open spec fn push_address(ram: Seq<Word>, static_start: Word, segment: PushSegment, offset: Word) -> Option<int> {
    match segment {
        PushSegment::Constant => None,
        PushSegment::Pointer => None,
        PushSegment::Static => Some(static_start + offset),
        PushSegment::Local => Some(ram[1] + offset),
        PushSegment::Argument => Some(ram[2] + offset),
        PushSegment::This => Some(ram[3] + offset),
        PushSegment::That => Some(ram[4] + offset),
        PushSegment::Temp => Some(5 + offset),
    }
}

/// The frame's registers are those of the RAM.
pub open spec fn registers_held(f: VmFrame, ram: Seq<Word>) -> bool {
    &&& ram.len() == MEM_SIZE
    &&& f.memory.len() == ram.len()
    &&& f.lcl == ram[1] * 4
    &&& f.arg == ram[2] * 4
    &&& f.this == ram[3] * 4
    &&& f.that == ram[4] * 4
}

/// The compiled push of a segment word puts the word that the VM pushes on the operand
/// stack, where memory holds the word it reads.
#[verifier::spinoff_prover]
#[verifier::rlimit(40)]
proof fn lemma_push_value(f: VmFrame, ram: Seq<Word>, static_start: Word, segment: PushSegment, offset: Word)
    requires
        registers_held(f, ram),
        f.branch is None,
        push_compiles(ram, static_start, segment, offset),
        push_value(ram, static_start, segment, offset) is Some,
        push_address(ram, static_start, segment, offset) matches Some(a) ==> f.memory[a] == ram[a] as i32,
    ensures
        frame_run(push_value_code(segment, offset, static_start), f) == Some(
            VmFrame { stack: f.stack.push(push_value(ram, static_start, segment, offset).unwrap() as i32), ..f },
        ),
{
    let code = push_value_code(segment, offset, static_start);
    let v = push_value(ram, static_start, segment, offset).unwrap();
    let st = f.stack;
    let n = st.len() as int;
    let g = VmFrame { stack: st.push(v as i32), ..f };
    match segment {
        PushSegment::Constant => {
            assert(frame_step(f, code[0]) == Some(g));
            assert(frame_run_from(code, 1, g) == Some(g));
        },
        PushSegment::Pointer => {
            let l = if offset == 0 { VmLocal::This } else { VmLocal::That };
            let x = frame_local(f, l);
            let w = ram[3 + offset] as i32;
            lemma_address_shift(w);
            let f1 = VmFrame { stack: st.push(x), ..f };
            assert(frame_step(f, code[0]) == Some(f1));
            let f2 = VmFrame { stack: st.push(x).push(2), ..f };
            assert(frame_step(f1, code[1]) == Some(f2));
            assert(st.push(x).push(2).subrange(0, n) =~= st);
            assert(x >> ((2i32 as u32) % 32) == w);
            assert(frame_step(f2, code[2]) == Some(g));
            assert(frame_run_from(code, 3, g) == Some(g));
            assert(frame_run_from(code, 2, f2) == Some(g));
            assert(frame_run_from(code, 1, f1) == Some(g));
        },
        PushSegment::Static => {
            let p = ((static_start + offset) * 4) as i32;
            lemma_load_word(f, code[0], p, 0, static_start + offset);
        },
        PushSegment::Local => lemma_load_word(f, code[0], f.lcl, word_offset(offset as int), ram[1] + offset),
        PushSegment::Argument => lemma_load_word(f, code[0], f.arg, word_offset(offset as int), ram[2] + offset),
        PushSegment::This => lemma_load_word(f, code[0], f.this, word_offset(offset as int), ram[3] + offset),
        PushSegment::That => lemma_load_word(f, code[0], f.that, word_offset(offset as int), ram[4] + offset),
        PushSegment::Temp => lemma_load_word(f, code[0], 20i32, 0, 5),
    }
}

/// The code that stores the popped value into its segment.
pub open spec fn pop_store_code(segment: PopSegment, offset: Word, static_start: Word) -> Seq<VmInstr> {
    if segment is Pointer {
        seq![
            VmInstr::I32Const(2),
            VmInstr::I32Shl,
            VmInstr::LocalSet(if offset == 0 { VmLocal::This } else { VmLocal::That }),
        ]
    } else {
        seq![VmInstr::LocalSet(VmLocal::Temp)] + pop_base_code(segment, static_start) + seq![
            VmInstr::LocalGet(VmLocal::Temp),
            VmInstr::I32Store(word_offset(offset as int)),
        ]
    }
}

/// Popping into THIS or THAT sets its local to the byte address of the popped word.
#[verifier::spinoff_prover]
proof fn lemma_pop_store_pointer(f: VmFrame, st: Seq<i32>, offset: Word, v: Word)
    requires
        f.stack == st.push(v as i32),
        f.branch is None,
        offset == 0 || offset == 1,
    ensures
        frame_run(pop_store_code(PopSegment::Pointer, offset, 0), f) == Some(
            with_local(
                VmFrame { stack: st, ..f },
                if offset == 0 { VmLocal::This } else { VmLocal::That },
                (v * 4) as i32,
            ),
        ),
{
    let code = pop_store_code(PopSegment::Pointer, offset, 0);
    let n = st.len() as int;
    let x = v as i32;
    lemma_address_shift(x);
    let l = if offset == 0 { VmLocal::This } else { VmLocal::That };
    let f1 = VmFrame { stack: st.push(x).push(2), ..f };
    assert(frame_step(f, code[0]) == Some(f1));
    let y = i32_specs::wrapping_shl(x, 2i32 as u32);
    assert(y == x * 4);
    let f2 = VmFrame { stack: st.push(y), ..f };
    assert(st.push(x).push(2).subrange(0, n) =~= st);
    assert(frame_step(f1, code[1]) == Some(f2));
    let f3 = with_local(VmFrame { stack: st, ..f }, l, y);
    assert(st.push(y).drop_last() =~= st);
    assert(frame_step(f2, code[2]) == Some(f3));
    assert(frame_run_from(code, 3, f3) == Some(f3));
    assert(frame_run_from(code, 2, f2) == Some(f3));
    assert(frame_run_from(code, 1, f1) == Some(f3));
}

/// The byte address that a pop into a memory segment adds its offset to.
pub open spec fn pop_base(f: VmFrame, static_start: Word, segment: PopSegment) -> i32 {
    match segment {
        PopSegment::Static => (static_start * 4) as i32,
        PopSegment::Local => f.lcl,
        PopSegment::Argument => f.arg,
        PopSegment::This => f.this,
        PopSegment::That => f.that,
        _ => 20i32,
    }
}

/// Popping into a memory segment writes the popped word at its address.
#[verifier::spinoff_prover]
proof fn lemma_pop_store_word(f: VmFrame, st: Seq<i32>, static_start: Word, segment: PopSegment, offset: Word, v: Word, a: int)
    requires
        f.stack == st.push(v as i32),
        f.branch is None,
        !(segment is Pointer),
        frame_word(f.memory, pop_base(f, static_start, segment), word_offset(offset as int)) == Some(a),
    ensures
        frame_run(pop_store_code(segment, offset, static_start), f) == Some(
            VmFrame { stack: st, temp: v as i32, memory: f.memory.update(a, v as i32), ..f },
        ),
{
    let code = pop_store_code(segment, offset, static_start);
    let n = st.len() as int;
    let x = v as i32;
    let base = pop_base(f, static_start, segment);
    let f1 = VmFrame { stack: st, temp: x, ..f };
    assert(st.push(x).drop_last() =~= st);
    assert(frame_step(f, code[0]) == Some(f1));
    let f2 = VmFrame { stack: st.push(base), ..f1 };
    assert(frame_step(f1, code[1]) == Some(f2));
    let f3 = VmFrame { stack: st.push(base).push(x), ..f1 };
    assert(frame_step(f2, code[2]) == Some(f3));
    let f4 = VmFrame { stack: st, memory: f.memory.update(a, x), ..f1 };
    assert(st.push(base).push(x).subrange(0, n) =~= st);
    assert(frame_step(f3, code[3]) == Some(f4));
    assert(frame_run_from(code, 4, f4) == Some(f4));
    assert(frame_run_from(code, 3, f3) == Some(f4));
    assert(frame_run_from(code, 2, f2) == Some(f4));
    assert(frame_run_from(code, 1, f1) == Some(f4));
}

/// The word that a pop into a memory segment writes, where the segment's base and the
/// offset are not negative.
proof fn lemma_pop_word_address(f: VmFrame, ram: Seq<Word>, static_start: Word, segment: PopSegment, offset: Word)
    requires
        registers_held(f, ram),
        !(segment is Pointer),
        pop_compiles(ram, static_start, segment, offset),
        pop_address(ram, static_start, segment, offset) is Some,
    ensures
        frame_word(f.memory, pop_base(f, static_start, segment), word_offset(offset as int)) == Some(
            pop_address(ram, static_start, segment, offset).unwrap() as int,
        ),
{
}

/// The compiled store of a popped value writes the word that the VM writes.
proof fn lemma_pop_store(f: VmFrame, ram: Seq<Word>, static_start: Word, segment: PopSegment, offset: Word, v: Word, sc: Set<int>)
    requires
        frame_holds_scaled(f, ram, sc),
        f.stack == seq![v as i32],
        f.branch is None,
        pop_compiles(ram, static_start, segment, offset),
        pop_address(ram, static_start, segment, offset) is Some,
    ensures
        frame_run(pop_store_code(segment, offset, static_start), f) matches Some(g) && frame_holds_scaled(
            g,
            ram.update(pop_address(ram, static_start, segment, offset).unwrap() as int, v),
            sc.remove(pop_address(ram, static_start, segment, offset).unwrap() as int),
        ) && g.stack.len() == 0 && g.branch is None && g.ticks == f.ticks && g.jump_target == f.jump_target,
{
    let e: Seq<i32> = Seq::empty();
    assert(seq![v as i32] =~= e.push(v as i32));
    let a = pop_address(ram, static_start, segment, offset).unwrap() as int;
    if segment is Pointer {
        assert(pop_store_code(segment, offset, static_start) == pop_store_code(PopSegment::Pointer, offset, 0));
        lemma_pop_store_pointer(f, e, offset, v);
    } else {
        lemma_pop_word_address(f, ram, static_start, segment, offset);
        lemma_pop_store_word(f, e, static_start, segment, offset, v, a);
    }
}

/// The commands that work on the stack alone: push, pop, the arithmetic and logic
/// commands, label, and function (which pushes its zeroed locals).
pub open spec fn is_stack_command(c: Command) -> bool {
    c is Push || c is Pop || is_binary(c) || c is Neg || c is Not || c is Label || c is Function
}

/// The RAM after a stack command, as the VM's step leaves it.
pub open spec fn stack_ram(c: Command, ram: Seq<Word>, static_start: Word) -> Option<Seq<Word>> {
    match c {
        Command::Push(segment, offset) => match push_value(ram, static_start, segment, offset) {
            None => None,
            Some(v) => push_ram(ram, v),
        },
        Command::Pop(segment, offset) => match pop_ram(ram) {
            None => None,
            Some(q) => match pop_address(q.0, static_start, segment, offset) {
                None => None,
                Some(a) => Some(q.0.update(a as int, q.1)),
            },
        },
        Command::Label(_) => Some(ram),
        Command::Function(_, count) => push_zeros(ram, count as int),
        Command::Neg => unary_ram(ram, |x: Word| unary_word(Command::Neg, x)),
        Command::Not => unary_ram(ram, |x: Word| unary_word(Command::Not, x)),
        _ => binary_ram(ram, |x: Word, y: Word| binary_word(c, x, y)),
    }
}

/// A stack command whose compiled code reads and writes the words that the VM's step
/// reads and writes: the stack it works on lies above the five registers, and its segment
/// access compiles as the VM reads it.
pub open spec fn case_compiles(c: Command, ram: Seq<Word>, static_start: Word) -> bool {
    match c {
        Command::Push(segment, offset) => 5 <= ram[0] && push_compiles(ram, static_start, segment, offset),
        Command::Pop(segment, offset) => 6 <= ram[0] && pop_compiles(ram, static_start, segment, offset),
        Command::Neg => 6 <= ram[0],
        Command::Not => 6 <= ram[0],
        Command::Label(_) => true,
        Command::Function(_, count) => 5 <= ram[0] && 0 <= count,
        _ => is_binary(c) && 7 <= ram[0],
    }
}

/// The RAM with `count` zeros pushed: the words from SP on are 0 and SP is above them.
pub open spec fn zeros_ram(ram: Seq<Word>, count: int) -> Seq<Word> {
    Seq::new(
        ram.len(),
        |a: int| if a == 0 { (ram[0] + count) as Word } else if ram[0] <= a < ram[0] + count { 0 } else { ram[a] },
    )
}

proof fn lemma_push_zeros(ram: Seq<Word>, count: int)
    requires
        ram.len() == MEM_SIZE,
        1 <= ram[0],
        0 <= count,
        push_zeros(ram, count) is Some,
    ensures
        ram[0] + count <= i16::MAX,
        push_zeros(ram, count) == Some(zeros_ram(ram, count)),
    decreases count,
{
    if count == 0 {
        assert(zeros_ram(ram, 0) =~= ram);
    } else {
        let r1 = ram.update(ram[0] as int, 0);
        let r = r1.update(0, (r1[0] + 1) as Word);
        assert(push_ram(ram, 0) == Some(r));
        lemma_push_zeros(r, count - 1);
        assert(zeros_ram(r, count - 1) =~= zeros_ram(ram, count));
    }
}

/// The code of `function` pushes its zeroed locals: the words from SP on are 0 and SP's
/// local is above them.
#[verifier::spinoff_prover]
#[verifier::rlimit(40)]
proof fn lemma_function_code(f: VmFrame, ram: Seq<Word>, count: Word)
    requires
        registers_held(f, ram),
        f.sp == ram[0] * 4,
        f.stack.len() == 0,
        f.branch is None,
        5 <= ram[0],
        0 <= count,
        ram[0] + count <= i16::MAX,
    ensures
        frame_run(function_code(count), f) == Some(
            VmFrame { sp: ((ram[0] + count) * 4) as i32, memory: filled(f.memory, ram[0] as int, ram[0] + count, 0), ..f },
        ),
{
    let code = function_code(count);
    let e: Seq<i32> = Seq::empty();
    let g = VmFrame { sp: ((ram[0] + count) * 4) as i32, memory: filled(f.memory, ram[0] as int, ram[0] + count, 0), ..f };
    assert(f.stack =~= e);
    if count == 0 {
        assert(filled(f.memory, ram[0] as int, ram[0] + count, 0) =~= f.memory);
        assert(frame_run(code, f) == Some(f));
    } else {
        let (m, k) = if count == 1 {
            let m = f.memory.update(ram[0] as int, 0);
            let f1 = VmFrame { stack: e.push(f.sp), ..f };
            assert(frame_step(f, code[0]) == Some(f1));
            let f2 = VmFrame { stack: e.push(f.sp).push(0), ..f };
            assert(frame_step(f1, code[1]) == Some(f2));
            let f3 = VmFrame { stack: e, memory: m, ..f };
            assert(e.push(f.sp).push(0).subrange(0, 0) =~= e);
            assert(frame_step(f2, code[2]) == Some(f3));
            assert(frame_run_from(code, 3, f3) == frame_run(code, f)) by {
                assert(frame_run_from(code, 2, f2) == frame_run_from(code, 3, f3));
                assert(frame_run_from(code, 1, f1) == frame_run_from(code, 2, f2));
            }
            (m, 3int)
        } else {
            let m = filled(f.memory, ram[0] as int, ram[0] + count, fill_word(0));
            let n4 = (count * 4) as i32;
            let f1 = VmFrame { stack: e.push(f.sp), ..f };
            assert(frame_step(f, code[0]) == Some(f1));
            let f2 = VmFrame { stack: e.push(f.sp).push(0), ..f };
            assert(frame_step(f1, code[1]) == Some(f2));
            let f3 = VmFrame { stack: e.push(f.sp).push(0).push(n4), ..f };
            assert(frame_step(f2, code[2]) == Some(f3));
            let f4 = VmFrame { stack: e, memory: m, ..f };
            assert(e.push(f.sp).push(0).push(n4).subrange(0, 0) =~= e);
            assert(frame_step(f3, code[3]) == Some(f4));
            assert(frame_run_from(code, 4, f4) == frame_run(code, f)) by {
                assert(frame_run_from(code, 3, f3) == frame_run_from(code, 4, f4));
                assert(frame_run_from(code, 2, f2) == frame_run_from(code, 3, f3));
                assert(frame_run_from(code, 1, f1) == frame_run_from(code, 2, f2));
            }
            (m, 4int)
        };
        let h0 = VmFrame { stack: e, memory: m, ..f };
        let h1 = VmFrame { stack: e.push(f.sp), ..h0 };
        assert(frame_step(h0, code[k]) == Some(h1));
        let n4 = (count * 4) as i32;
        let h2 = VmFrame { stack: e.push(f.sp).push(n4), ..h0 };
        assert(frame_step(h1, code[k + 1]) == Some(h2));
        let sum = i32_specs::wrapping_add(f.sp, n4);
        let h3 = VmFrame { stack: e.push(sum), ..h0 };
        assert(e.push(f.sp).push(n4).subrange(0, 0) =~= e);
        assert(frame_step(h2, code[k + 2]) == Some(h3));
        let h4 = VmFrame { stack: e, sp: sum, ..h0 };
        assert(e.push(sum).drop_last() =~= e);
        assert(frame_step(h3, code[k + 3]) == Some(h4));
        assert(frame_run_from(code, k + 4, h4) == Some(h4));
        assert(frame_run_from(code, k + 3, h3) == Some(h4));
        assert(frame_run_from(code, k + 2, h2) == Some(h4));
        assert(frame_run_from(code, k + 1, h1) == Some(h4));
        assert(frame_run_from(code, k, h0) == Some(h4));
        assert(m =~= filled(f.memory, ram[0] as int, ram[0] + count, 0));
    }
}

/// The scaled words after a stack command's step: a word it writes is held as it is.
pub open spec fn stack_scaled(c: Command, ram: Seq<Word>, static_start: Word, sc: Set<int>) -> Set<int> {
    match c {
        Command::Push(_, _) => sc.remove(ram[0] as int),
        Command::Pop(segment, offset) => match pop_address(
            ram.update(0, (ram[0] - 1) as Word),
            static_start,
            segment,
            offset,
        ) {
            Some(a) => sc.remove(a as int),
            None => sc,
        },
        Command::Function(_, count) => sc.filter(|a: int| !(ram[0] <= a < ram[0] + count)),
        _ => sc,
    }
}

/// The words that a stack command's step reads, from 5 on, are not scaled: the stack words
/// it pops or works on and the segment word a push reads.
pub open spec fn case_unscaled(c: Command, ram: Seq<Word>, static_start: Word, sc: Set<int>) -> bool {
    match c {
        Command::Push(segment, offset) => push_address(ram, static_start, segment, offset) matches Some(a)
            ==> !sc.contains(a),
        Command::Pop(_, _) => !sc.contains(ram[0] - 1),
        Command::Label(_) => true,
        Command::Function(_, _) => true,
        Command::Neg => !sc.contains(ram[0] - 1),
        Command::Not => !sc.contains(ram[0] - 1),
        Command::Goto(_) => true,
        Command::IfGoto(_) => !sc.contains(ram[0] - 1),
        _ => !sc.contains(ram[0] - 2) && !sc.contains(ram[0] - 1),
    }
}

proof fn lemma_push_body(f: VmFrame, ram: Seq<Word>, static_start: Word, segment: PushSegment, offset: Word, sc: Set<int>)
    requires
        frame_holds_scaled(f, ram, sc),
        case_unscaled(Command::Push(segment, offset), ram, static_start, sc),
        f.stack.len() == 0,
        f.branch is None,
        case_compiles(Command::Push(segment, offset), ram, static_start),
        stack_ram(Command::Push(segment, offset), ram, static_start) is Some,
    ensures
        frame_run(push_value_code(segment, offset, static_start) + drop_code(1), f) matches Some(g) && frame_holds_scaled(
            g,
            stack_ram(Command::Push(segment, offset), ram, static_start).unwrap(),
            stack_scaled(Command::Push(segment, offset), ram, static_start, sc),
        ) && g.stack.len() == 0 && g.branch is None && g.ticks == f.ticks && g.jump_target == f.jump_target,
{
    let v = push_value(ram, static_start, segment, offset).unwrap();
    lemma_push_value(f, ram, static_start, segment, offset);
    let f1 = VmFrame { stack: seq![v as i32], ..f };
    assert(f.stack.push(v as i32) =~= seq![v as i32]);
    lemma_store_top(f1, ram, v, sc);
    lemma_frame_run_concat(push_value_code(segment, offset, static_start), drop_code(1), f);
}

proof fn lemma_pop_body(f: VmFrame, ram: Seq<Word>, static_start: Word, segment: PopSegment, offset: Word, sc: Set<int>)
    requires
        frame_holds_scaled(f, ram, sc),
        case_unscaled(Command::Pop(segment, offset), ram, static_start, sc),
        f.stack.len() == 0,
        f.branch is None,
        case_compiles(Command::Pop(segment, offset), ram, static_start),
        stack_ram(Command::Pop(segment, offset), ram, static_start) is Some,
    ensures
        frame_run(prepare1(0).0 + pop_store_code(segment, offset, static_start), f) matches Some(g) && frame_holds_scaled(
            g,
            stack_ram(Command::Pop(segment, offset), ram, static_start).unwrap(),
            stack_scaled(Command::Pop(segment, offset), ram, static_start, sc),
        ) && g.stack.len() == 0 && g.branch is None && g.ticks == f.ticks && g.jump_target == f.jump_target,
{
    let r1 = ram.update(0, (ram[0] - 1) as Word);
    let v = ram[ram[0] - 1];
    lemma_take_top(f, ram);
    let f1 = VmFrame { stack: seq![v as i32], sp: (f.sp - 4) as i32, ..f };
    assert(frame_holds_scaled(f1, r1, sc));
    assert(pop_ram(ram) == Some((r1, v)));
    lemma_pop_store(f1, r1, static_start, segment, offset, v, sc);
    lemma_frame_run_concat(prepare1(0).0, pop_store_code(segment, offset, static_start), f);
}

proof fn lemma_binary_body(f: VmFrame, ram: Seq<Word>, c: Command, sc: Set<int>)
    requires
        frame_holds_scaled(f, ram, sc),
        !sc.contains(ram[0] - 2),
        !sc.contains(ram[0] - 1),
        f.stack.len() == 0,
        f.branch is None,
        is_binary(c),
        7 <= ram[0],
        stack_ram(c, ram, 0) is Some,
    ensures
        frame_run(prepare2(0).0 + operation_code(c) + drop_code(1), f) matches Some(g) && frame_holds_scaled(
            g,
            stack_ram(c, ram, 0).unwrap(),
            sc,
        ) && g.stack.len() == 0 && g.branch is None && g.ticks == f.ticks && g.jump_target == f.jump_target,
{
    let x = ram[ram[0] - 2];
    let y = ram[ram[0] - 1];
    let r2 = ram.update(0, (ram[0] - 2) as Word);
    lemma_take_two(f, ram);
    let f1 = VmFrame { stack: seq![x as i32, y as i32], sp: (f.sp - 8) as i32, ..f };
    assert(frame_holds_scaled(f1, r2, sc));
    assert(seq![x as i32, y as i32] =~= Seq::<i32>::empty().push(x as i32).push(y as i32));
    lemma_binary_op(f1, Seq::empty(), c, x, y);
    assert(Seq::<i32>::empty().push(binary_word(c, x, y) as i32) =~= seq![binary_word(c, x, y) as i32]);
    let g1 = frame_run(operation_code(c), f1).unwrap();
    let r = binary_word(c, x, y);
    lemma_store_top(g1, r2, r, sc);
    assert(sc.remove(r2[0] as int) =~= sc);
    lemma_frame_run_concat(prepare2(0).0, operation_code(c), f);
    lemma_frame_run_concat(prepare2(0).0 + operation_code(c), drop_code(1), f);
    let q = pop_ram(ram).unwrap();
    assert(q.0 == ram.update(0, (ram[0] - 1) as Word));
    assert(stack_ram(c, ram, 0) == Some(q.0.update(ram[0] - 2, r)));
    assert(push_ram(r2, r).unwrap() =~= q.0.update(ram[0] - 2, r));
}

proof fn lemma_unary_body(f: VmFrame, ram: Seq<Word>, c: Command, sc: Set<int>)
    requires
        frame_holds_scaled(f, ram, sc),
        !sc.contains(ram[0] - 1),
        f.stack.len() == 0,
        f.branch is None,
        c is Neg || c is Not,
        6 <= ram[0],
    ensures
        frame_run(prepare1(0).0 + operation_code(c) + drop_code(1), f) matches Some(g) && frame_holds_scaled(
            g,
            stack_ram(c, ram, 0).unwrap(),
            sc,
        ) && g.stack.len() == 0 && g.branch is None && g.ticks == f.ticks && g.jump_target == f.jump_target,
{
    let x = ram[ram[0] - 1];
    let r1 = ram.update(0, (ram[0] - 1) as Word);
    lemma_take_top(f, ram);
    let f1 = VmFrame { stack: seq![x as i32], sp: (f.sp - 4) as i32, ..f };
    assert(frame_holds_scaled(f1, r1, sc));
    assert(seq![x as i32] =~= Seq::<i32>::empty().push(x as i32));
    lemma_unary_op(f1, Seq::empty(), c, x);
    assert(Seq::<i32>::empty().push(unary_word(c, x) as i32) =~= seq![unary_word(c, x) as i32]);
    let g1 = frame_run(operation_code(c), f1).unwrap();
    let r = unary_word(c, x);
    lemma_store_top(g1, r1, r, sc);
    assert(sc.remove(r1[0] as int) =~= sc);
    lemma_frame_run_concat(prepare1(0).0, operation_code(c), f);
    lemma_frame_run_concat(prepare1(0).0 + operation_code(c), drop_code(1), f);
    assert(stack_ram(c, ram, 0) == Some(ram.update(ram[0] - 1, r)));
    assert(push_ram(r1, r).unwrap() =~= ram.update(ram[0] - 1, r));
}

/// For a stack command, the VM's step leaves the RAM of `stack_ram` and goes on to the
/// next command.
pub(crate) proof fn lemma_vm_step_stack(p: ProgramSpec, s: RunSpec)
    requires
        vm_step(p, s) is Some,
        is_stack_command(p.commands[s.current_command_index as int]),
        s.current_command_index < i32::MAX,
    ensures
        s.current_command_index < p.commands.len(),
        s.current_file_index < p.files.len(),
        stack_ram(
            p.commands[s.current_command_index as int],
            s.ram,
            p.files[s.current_file_index as int].static_start,
        ) == Some(vm_step(p, s).unwrap().ram),
        vm_step(p, s).unwrap().current_command_index == s.current_command_index + 1,
{
}

proof fn lemma_stack_body(
    f: VmFrame,
    ram: Seq<Word>,
    static_start: Word,
    c: Command,
    index: int,
    scan: DynScan,
    function_name: Option<Seq<char>>,
    sc: Set<int>,
)
    requires
        frame_holds_scaled(f, ram, sc),
        f.stack.len() == 0,
        f.branch is None,
        case_compiles(c, ram, static_start),
        case_unscaled(c, ram, static_start, sc),
        stack_ram(c, ram, static_start) is Some,
    ensures
        frame_run(
            dyn_command_body(scan, function_name, index, static_start, c).0 + drop_code(
                dyn_command_body(scan, function_name, index, static_start, c).1,
            ),
            f,
        ) matches Some(g) && frame_holds_scaled(g, stack_ram(c, ram, static_start).unwrap(), stack_scaled(c, ram, static_start, sc)) && g.stack.len() == 0
            && g.branch is None && g.ticks == f.ticks && g.jump_target == f.jump_target,
{
    let body = dyn_command_body(scan, function_name, index, static_start, c);
    let mid = body.0 + drop_code(body.1);
    reveal_with_fuel(drop_stores, 1);
    assert(drop_code(0) =~= Seq::<VmInstr>::empty());
    match c {
        Command::Push(segment, offset) => {
            assert(body == (push_value_code(segment, offset, static_start), 1nat));
            lemma_push_body(f, ram, static_start, segment, offset, sc);
        },
        Command::Pop(segment, offset) => {
            assert(body.1 == 0);
            assert(mid =~= prepare1(0).0 + pop_store_code(segment, offset, static_start));
            lemma_pop_body(f, ram, static_start, segment, offset, sc);
        },
        Command::Label(_) => {
            assert(mid =~= Seq::<VmInstr>::empty());
            assert(frame_run(mid, f) == Some(f));
        },
        Command::Function(_, count) => {
            assert(body == (function_code(count), 0nat));
            assert(mid =~= function_code(count));
            lemma_push_zeros(ram, count as int);
            lemma_function_code(f, ram, count);
        },
        Command::Neg => {
            assert(body == (prepare1(0).0 + operation_code(c), 1nat));
            assert(stack_ram(c, ram, static_start) == stack_ram(c, ram, 0));
            lemma_unary_body(f, ram, c, sc);
        },
        Command::Not => {
            assert(body == (prepare1(0).0 + operation_code(c), 1nat));
            assert(stack_ram(c, ram, static_start) == stack_ram(c, ram, 0));
            lemma_unary_body(f, ram, c, sc);
        },
        _ => {
            assert(body == (prepare2(0).0 + operation_code(c), 1nat));
            assert(stack_ram(c, ram, static_start) == stack_ram(c, ram, 0));
            lemma_binary_body(f, ram, c, sc);
        },
    }
}

/// A case of dynamic dispatch does what the VM's step does: for a command that works on
/// the stack alone (push, pop, the arithmetic and logic commands, label, and function,
/// which pushes its zeroed locals), whose words lie where its compiled code reads and
/// writes them and whose words read are not scaled, the case run on a frame that holds
/// the VM's RAM ends with a frame that holds the RAM after the step (the words it wrote no
/// longer scaled), one more command counted, the next command as the jump target, and a
/// branch back to the dispatch loop.
pub proof fn lemma_dynamic_case_steps(
    p: ProgramSpec,
    s: RunSpec,
    scan: DynScan,
    function_name: Option<Seq<char>>,
    f: VmFrame,
    scaled: Set<int>,
)
    requires
        vm_step(p, s) is Some,
        case_compiles(
            p.commands[s.current_command_index as int],
            s.ram,
            p.files[s.current_file_index as int].static_start,
        ),
        case_unscaled(
            p.commands[s.current_command_index as int],
            s.ram,
            p.files[s.current_file_index as int].static_start,
            scaled,
        ),
        s.current_command_index < i32::MAX,
        frame_holds_scaled(f, s.ram, scaled),
        f.stack.len() == 0,
        f.branch is None,
    ensures
        frame_run(
            dynamic_case(
                scan,
                function_name,
                s.current_command_index as int,
                p.files[s.current_file_index as int].static_start,
                p.commands[s.current_command_index as int],
            ),
            f,
        ) matches Some(g) && frame_holds_scaled(
            g,
            vm_step(p, s).unwrap().ram,
            stack_scaled(
                p.commands[s.current_command_index as int],
                s.ram,
                p.files[s.current_file_index as int].static_start,
                scaled,
            ),
        ) && g.jump_target == vm_step(
            p,
            s,
        ).unwrap().current_command_index && g.ticks == i32_specs::wrapping_add(1, f.ticks) && g.branch == Some(
            VmBranch::Loop,
        ) && g.stack.len() == 0,
{
    let i = s.current_command_index as int;
    let c = p.commands[i];
    let ss = p.files[s.current_file_index as int].static_start;
    lemma_vm_step_stack(p, s);
    let body = dyn_command_body(scan, function_name, i, ss, c);
    let mid = body.0 + drop_code(body.1);
    assert(dynamic_case(scan, function_name, i, ss, c) =~= vm_tick_code() + mid + next_case_code(i));
    lemma_frame_run_concat(vm_tick_code() + mid, next_case_code(i), f);
    lemma_frame_run_concat(vm_tick_code(), mid, f);
    lemma_tick(f);
    let f1 = VmFrame { ticks: i32_specs::wrapping_add(1, f.ticks), ..f };
    lemma_stack_body(f1, s.ram, ss, c, i, scan, function_name, scaled);
    let g1 = frame_run(mid, f1).unwrap();
    lemma_next_case(g1, i);
}

// ---------------------------------------------------------------- static dispatch: kept values

/// The word that memory holds for RAM word `a`: the compiled code's own value where `a`
/// is a word of a frame that a call saved (a return case, or a register as a byte
/// address), else the RAM's word.
pub open spec fn held_word(saved: Map<int, i32>, ram: Seq<Word>, a: int) -> i32 {
    if saved.dom().contains(a) {
        saved[a]
    } else {
        ram[a] as i32
    }
}

/// The frame holds the VM's RAM up to its stack top with the top `kept` words of the VM
/// stack on the operand stack: SP's local stands below the kept words, LCL, ARG, THIS and
/// THAT are in their locals, and each word from 5 up to the kept ones is in memory, as the
/// RAM holds it or, for the words of the frames that calls saved (`saved`, all below the
/// kept words), as the compiled code saved it. Words at and above SP are not compared: the
/// VM leaves popped words there, which the compiled code does not write.
pub open spec fn frame_holds_kept(f: VmFrame, ram: Seq<Word>, kept: nat, saved: Map<int, i32>) -> bool {
    &&& registers_held(f, ram)
    &&& 5 + kept <= ram[0]
    &&& f.stack.len() == kept
    &&& forall|j: int| 0 <= j < kept ==> #[trigger] f.stack[j] == ram[ram[0] - kept + j] as i32
    &&& f.sp == (ram[0] - kept) * 4
    &&& forall|a: int| 5 <= a < ram[0] - kept ==> #[trigger] f.memory[a] == held_word(saved, ram, a)
    &&& forall|a: int| #[trigger] saved.dom().contains(a) ==> 5 <= a < ram[0] - kept
}

/// One more value on the operand stack is one more kept word: the VM's push of it.
proof fn lemma_kept_push(g: VmFrame, st: Seq<i32>, ram: Seq<Word>, kept: nat, v: Word, saved: Map<int, i32>)
    requires
        frame_holds_kept(VmFrame { stack: st, ..g }, ram, kept, saved),
        g.stack == st.push(v as i32),
        ram[0] < i16::MAX,
    ensures
        push_ram(ram, v) is Some,
        frame_holds_kept(g, push_ram(ram, v).unwrap(), kept + 1, saved),
{
    let sp0 = ram[0] as int;
    let r1 = ram.update(sp0, v);
    let r2 = r1.update(0, (r1[0] + 1) as Word);
    assert(push_ram(ram, v) == Some(r2));
    assert forall|j: int| 0 <= j < kept + 1 implies #[trigger] g.stack[j] == r2[r2[0] - (kept + 1) + j] as i32 by {
        if j < kept {
            assert(g.stack[j] == st[j]);
        }
    }
}

/// Storing the popped word at `a`, a word that is not among the kept ones.
proof fn lemma_kept_store(g: VmFrame, ram: Seq<Word>, kept: nat, a: int, v: Word, saved: Map<int, i32>)
    requires
        frame_holds_kept(g, ram, kept, saved),
        5 <= a < MEM_SIZE,
        a < ram[0] - kept || ram[0] <= a,
        !saved.dom().contains(a),
    ensures
        frame_holds_kept(VmFrame { memory: g.memory.update(a, v as i32), ..g }, ram.update(a, v), kept, saved),
{
    let r2 = ram.update(a, v);
    let g2 = VmFrame { memory: g.memory.update(a, v as i32), ..g };
    assert forall|j: int| 0 <= j < kept implies #[trigger] g2.stack[j] == r2[r2[0] - kept + j] as i32 by {
        assert(g.stack[j] == ram[ram[0] - kept + j] as i32);
    }
}

/// The commands of the library's stack code with `kept` values on the operand stack whose
/// compiled code reads and writes what the VM's step reads and writes: a word that it
/// reads lies from 5 up to the kept ones, a word that it writes is not among the kept
/// ones, and the words it takes from RAM lie from 5 on.
pub open spec fn kept_compiles(c: Command, ram: Seq<Word>, static_start: Word, kept: nat, saved: Map<int, i32>) -> bool {
    match c {
        Command::Push(segment, offset) => push_compiles(ram, static_start, segment, offset) && (push_address(
            ram,
            static_start,
            segment,
            offset,
        ) matches Some(a) ==> 5 <= a < ram[0] - kept && !saved.dom().contains(a)),
        Command::Pop(segment, offset) => {
            &&& kept == 0 ==> 6 <= ram[0] && !saved.dom().contains(ram[0] - 1)
            &&& pop_compiles(ram, static_start, segment, offset)
            &&& (!(segment is Pointer) && pop_address(ram, static_start, segment, offset) is Some) ==> {
                let a = pop_address(ram, static_start, segment, offset).unwrap() as int;
                &&& a < ram[0] - kept || ram[0] - 1 <= a
                &&& !saved.dom().contains(a)
            }
        },
        Command::Neg => kept == 0 ==> 6 <= ram[0] && !saved.dom().contains(ram[0] - 1),
        Command::Not => kept == 0 ==> 6 <= ram[0] && !saved.dom().contains(ram[0] - 1),
        Command::Label(_) => true,
        Command::Function(_, count) => kept == 0 && 0 <= count,
        _ => is_binary(c) && (kept <= 1 ==> 7 <= ram[0] && !saved.dom().contains(ram[0] - 2)) && (kept == 0
            ==> !saved.dom().contains(ram[0] - 1)),
    }
}

/// `prepare1`: the top word of the VM stack on top of the operand stack, and the rest as
/// the words kept over the RAM with the top word popped.
proof fn lemma_kept_take_top(f: VmFrame, ram: Seq<Word>, kept: nat, saved: Map<int, i32>)
    requires
        frame_holds_kept(f, ram, kept, saved),
        f.branch is None,
        kept == 0 ==> 6 <= ram[0] && !saved.dom().contains(ram[0] - 1),
    ensures
        frame_run(prepare1(kept).0, f) matches Some(g) && g.branch is None && g.ticks == f.ticks
            && g.jump_target == f.jump_target && g.stack.len() >= 1 && g.stack.last() == ram[ram[0] - 1] as i32
            && frame_holds_kept(
            VmFrame { stack: g.stack.drop_last(), ..g },
            ram.update(0, (ram[0] - 1) as Word),
            prepare1(kept).1, saved,
        ),
{
    let r1 = ram.update(0, (ram[0] - 1) as Word);
    if kept == 0 {
        lemma_take_top(f, ram);
        let g = VmFrame { stack: seq![ram[ram[0] - 1] as i32], sp: (f.sp - 4) as i32, ..f };
        assert(seq![ram[ram[0] - 1] as i32].drop_last() =~= Seq::<i32>::empty());
    } else {
        assert(frame_run(prepare1(kept).0, f) == Some(f));
        let st = f.stack.drop_last();
        assert(f.stack.last() == f.stack[kept - 1]);
        assert forall|j: int| 0 <= j < kept - 1 implies #[trigger] st[j] == r1[r1[0] - (kept - 1) + j] as i32 by {
            assert(st[j] == f.stack[j]);
        }
    }
}

/// `prepare2`: the two top words of the VM stack on top of the operand stack, and the
/// rest as the words kept over the RAM with both popped.
#[verifier::spinoff_prover]
proof fn lemma_kept_take_two(f: VmFrame, ram: Seq<Word>, kept: nat, saved: Map<int, i32>)
    requires
        frame_holds_kept(f, ram, kept, saved),
        f.branch is None,
        kept <= 1 ==> 7 <= ram[0] && !saved.dom().contains(ram[0] - 2),
        kept == 0 ==> !saved.dom().contains(ram[0] - 1),
    ensures
        frame_run(prepare2(kept).0, f) matches Some(g) && g.branch is None && g.ticks == f.ticks
            && g.jump_target == f.jump_target && g.stack.len() >= 2 && g.stack == g.stack.drop_last().drop_last().push(
            ram[ram[0] - 2] as i32,
        ).push(ram[ram[0] - 1] as i32) && frame_holds_kept(
            VmFrame { stack: g.stack.drop_last().drop_last(), ..g },
            ram.update(0, (ram[0] - 2) as Word),
            prepare2(kept).1, saved,
        ),
{
    let r2 = ram.update(0, (ram[0] - 2) as Word);
    let x = ram[ram[0] - 2] as i32;
    let y = ram[ram[0] - 1] as i32;
    let e: Seq<i32> = Seq::empty();
    if kept == 0 {
        lemma_take_two(f, ram);
        assert(seq![x, y] =~= e.push(x).push(y));
        assert(seq![x, y].drop_last().drop_last() =~= e);
    } else if kept == 1 {
        let code = prepare2(1).0;
        assert(f.stack =~= e.push(y));
        let f1 = VmFrame { stack: e, temp: y, ..f };
        assert(e.push(y).drop_last() =~= e);
        assert(frame_step(f, code[0]) == Some(f1));
        let f2 = VmFrame { stack: e.push(f.sp), ..f1 };
        assert(frame_step(f1, code[1]) == Some(f2));
        let f3 = VmFrame { stack: e.push(f.sp).push(4), ..f1 };
        assert(frame_step(f2, code[2]) == Some(f3));
        let d = i32_specs::wrapping_sub(f.sp, 4);
        let f4 = VmFrame { stack: e.push(d), ..f1 };
        assert(e.push(f.sp).push(4).subrange(0, 0) =~= e);
        assert(frame_step(f3, code[3]) == Some(f4));
        let f5 = VmFrame { stack: e.push(d), sp: d, ..f1 };
        assert(frame_step(f4, code[4]) == Some(f5));
        let f6 = VmFrame { stack: e.push(x), sp: d, ..f1 };
        assert(frame_word(f.memory, d, 0) == Some(ram[0] - 2));
        assert(e.push(d).drop_last() =~= e);
        assert(frame_step(f5, code[5]) == Some(f6));
        let f7 = VmFrame { stack: e.push(x).push(y), sp: d, ..f1 };
        assert(frame_step(f6, code[6]) == Some(f7));
        assert(frame_run_from(code, 7, f7) == Some(f7));
        assert(frame_run_from(code, 6, f6) == Some(f7));
        assert(frame_run_from(code, 5, f5) == Some(f7));
        assert(frame_run_from(code, 4, f4) == Some(f7));
        assert(frame_run_from(code, 3, f3) == Some(f7));
        assert(frame_run_from(code, 2, f2) == Some(f7));
        assert(frame_run_from(code, 1, f1) == Some(f7));
        assert(frame_run_from(code, 0, f) == Some(f7));
        assert(e.push(x).push(y).drop_last().drop_last() =~= e);
    } else {
        assert(frame_run(prepare2(kept).0, f) == Some(f));
        let st = f.stack.drop_last().drop_last();
        assert(f.stack =~= st.push(f.stack[kept - 2]).push(f.stack[kept - 1]));
        assert forall|j: int| 0 <= j < kept - 2 implies #[trigger] st[j] == r2[r2[0] - (kept - 2) + j] as i32 by {
            assert(st[j] == f.stack[j]);
        }
    }
}

proof fn lemma_kept_push_command(f: VmFrame, ram: Seq<Word>, static_start: Word, segment: PushSegment, offset: Word, kept: nat, saved: Map<int, i32>)
    requires
        frame_holds_kept(f, ram, kept, saved),
        f.branch is None,
        kept_compiles(Command::Push(segment, offset), ram, static_start, kept, saved),
        stack_ram(Command::Push(segment, offset), ram, static_start) is Some,
    ensures
        frame_run(push_value_code(segment, offset, static_start), f) matches Some(g) && frame_holds_kept(
            g,
            stack_ram(Command::Push(segment, offset), ram, static_start).unwrap(),
            kept + 1, saved,
        ) && g.branch is None && g.ticks == f.ticks && g.jump_target == f.jump_target,
{
    let v = push_value(ram, static_start, segment, offset).unwrap();
    lemma_push_value(f, ram, static_start, segment, offset);
    let g = VmFrame { stack: f.stack.push(v as i32), ..f };
    assert(VmFrame { stack: f.stack, ..g } == f);
    lemma_kept_push(g, f.stack, ram, kept, v, saved);
}

proof fn lemma_kept_pop_command(f: VmFrame, ram: Seq<Word>, static_start: Word, segment: PopSegment, offset: Word, kept: nat, saved: Map<int, i32>)
    requires
        frame_holds_kept(f, ram, kept, saved),
        f.branch is None,
        kept_compiles(Command::Pop(segment, offset), ram, static_start, kept, saved),
        stack_ram(Command::Pop(segment, offset), ram, static_start) is Some,
    ensures
        frame_run(prepare1(kept).0 + pop_store_code(segment, offset, static_start), f) matches Some(g)
            && frame_holds_kept(g, stack_ram(Command::Pop(segment, offset), ram, static_start).unwrap(), prepare1(kept).1, saved)
            && g.branch is None && g.ticks == f.ticks && g.jump_target == f.jump_target,
{
    let r1 = ram.update(0, (ram[0] - 1) as Word);
    let v = ram[ram[0] - 1];
    let k1 = prepare1(kept).1;
    lemma_kept_take_top(f, ram, kept, saved);
    let g1 = frame_run(prepare1(kept).0, f).unwrap();
    let st = g1.stack.drop_last();
    assert(g1.stack =~= st.push(v as i32));
    let h1 = VmFrame { stack: st, ..g1 };
    assert(pop_ram(ram) == Some((r1, v)));
    lemma_frame_run_concat(prepare1(kept).0, pop_store_code(segment, offset, static_start), f);
    if segment is Pointer {
        assert(pop_store_code(segment, offset, static_start) == pop_store_code(PopSegment::Pointer, offset, 0));
        lemma_pop_store_pointer(g1, st, offset, v);
        let g2 = with_local(h1, if offset == 0 { VmLocal::This } else { VmLocal::That }, (v * 4) as i32);
        let r2 = r1.update(3 + offset, v);
        assert(stack_ram(Command::Pop(segment, offset), ram, static_start) == Some(r2));
        assert forall|j: int| 0 <= j < k1 implies #[trigger] g2.stack[j] == r2[r2[0] - k1 + j] as i32 by {
            assert(h1.stack[j] == r1[r1[0] - k1 + j] as i32);
        }
        assert(frame_holds_kept(g2, r2, k1, saved));
    } else {
        let a = pop_address(r1, static_start, segment, offset).unwrap() as int;
        assert(pop_address(r1, static_start, segment, offset) == pop_address(ram, static_start, segment, offset));
        lemma_pop_word_address(g1, r1, static_start, segment, offset);
        lemma_pop_store_word(g1, st, static_start, segment, offset, v, a);
        let t1 = VmFrame { temp: v as i32, ..h1 };
        lemma_kept_store(t1, r1, k1, a, v, saved);
        assert(VmFrame { memory: t1.memory.update(a, v as i32), ..t1 } == VmFrame {
            stack: st,
            temp: v as i32,
            memory: g1.memory.update(a, v as i32),
            ..g1
        });
    }
}

proof fn lemma_kept_binary_command(f: VmFrame, ram: Seq<Word>, c: Command, kept: nat, saved: Map<int, i32>)
    requires
        frame_holds_kept(f, ram, kept, saved),
        f.branch is None,
        is_binary(c),
        kept_compiles(c, ram, 0, kept, saved),
        stack_ram(c, ram, 0) is Some,
    ensures
        frame_run(prepare2(kept).0 + operation_code(c), f) matches Some(g) && frame_holds_kept(
            g,
            stack_ram(c, ram, 0).unwrap(),
            prepare2(kept).1 + 1, saved,
        ) && g.branch is None && g.ticks == f.ticks && g.jump_target == f.jump_target,
{
    let x = ram[ram[0] - 2];
    let y = ram[ram[0] - 1];
    let r2 = ram.update(0, (ram[0] - 2) as Word);
    let k2 = prepare2(kept).1;
    lemma_kept_take_two(f, ram, kept, saved);
    let g1 = frame_run(prepare2(kept).0, f).unwrap();
    let st = g1.stack.drop_last().drop_last();
    lemma_binary_op(g1, st, c, x, y);
    let g2 = frame_run(operation_code(c), g1).unwrap();
    let r = binary_word(c, x, y);
    assert(VmFrame { stack: st, ..g2 } == VmFrame { stack: st, temp: g2.temp, ..g1 });
    lemma_kept_push(g2, st, r2, k2, r, saved);
    lemma_frame_run_concat(prepare2(kept).0, operation_code(c), f);
    let q = pop_ram(ram).unwrap();
    assert(stack_ram(c, ram, 0) == Some(q.0.update(ram[0] - 2, r)));
    assert(push_ram(r2, r).unwrap() =~= q.0.update(ram[0] - 2, r));
}

proof fn lemma_kept_unary_command(f: VmFrame, ram: Seq<Word>, c: Command, kept: nat, saved: Map<int, i32>)
    requires
        frame_holds_kept(f, ram, kept, saved),
        f.branch is None,
        c is Neg || c is Not,
        kept_compiles(c, ram, 0, kept, saved),
    ensures
        frame_run(prepare1(kept).0 + operation_code(c), f) matches Some(g) && frame_holds_kept(
            g,
            stack_ram(c, ram, 0).unwrap(),
            prepare1(kept).1 + 1, saved,
        ) && g.branch is None && g.ticks == f.ticks && g.jump_target == f.jump_target,
{
    let x = ram[ram[0] - 1];
    let r1 = ram.update(0, (ram[0] - 1) as Word);
    let k1 = prepare1(kept).1;
    lemma_kept_take_top(f, ram, kept, saved);
    let g1 = frame_run(prepare1(kept).0, f).unwrap();
    let st = g1.stack.drop_last();
    assert(g1.stack =~= st.push(x as i32));
    lemma_unary_op(g1, st, c, x);
    let g2 = frame_run(operation_code(c), g1).unwrap();
    let r = unary_word(c, x);
    assert(VmFrame { stack: st, ..g2 } == VmFrame { stack: st, temp: g2.temp, ..g1 });
    lemma_kept_push(g2, st, r1, k1, r, saved);
    lemma_frame_run_concat(prepare1(kept).0, operation_code(c), f);
    assert(stack_ram(c, ram, 0) == Some(ram.update(ram[0] - 1, r)));
    assert(push_ram(r1, r).unwrap() =~= ram.update(ram[0] - 1, r));
}

proof fn lemma_kept_command(
    f: VmFrame,
    ram: Seq<Word>,
    static_start: Word,
    c: Command,
    kept: nat,
    index: int,
    jump: VmBranch,
    function_name: Option<Seq<char>>,
    labels: Map<Seq<char>, i32>,
    functions: Map<Seq<char>, i32>,
    calls: Map<usize, i32>, saved: Map<int, i32>,
)
    requires
        frame_holds_kept(f, ram, kept, saved),
        f.branch is None,
        kept_compiles(c, ram, static_start, kept, saved),
        stack_ram(c, ram, static_start) is Some,
    ensures
        frame_run(command_body(c, index, jump, static_start, function_name, labels, functions, calls, kept).0, f) matches Some(g)
            && frame_holds_kept(
            g,
            stack_ram(c, ram, static_start).unwrap(),
            command_body(c, index, jump, static_start, function_name, labels, functions, calls, kept).1, saved,
        ) && g.branch is None && g.ticks == f.ticks && g.jump_target == f.jump_target,
{
    let body = command_body(c, index, jump, static_start, function_name, labels, functions, calls, kept);
    match c {
        Command::Push(segment, offset) => {
            assert(body == (push_value_code(segment, offset, static_start), kept + 1));
            lemma_kept_push_command(f, ram, static_start, segment, offset, kept, saved);
        },
        Command::Pop(segment, offset) => {
            assert(body.1 == prepare1(kept).1);
            assert(body.0 =~= prepare1(kept).0 + pop_store_code(segment, offset, static_start));
            lemma_kept_pop_command(f, ram, static_start, segment, offset, kept, saved);
        },
        Command::Label(_) => {
            assert(body.0 =~= Seq::<VmInstr>::empty());
            assert(frame_run(body.0, f) == Some(f));
        },
        Command::Function(_, count) => {
            assert(body == (function_code(count), kept));
            lemma_push_zeros(ram, count as int);
            lemma_function_code(f, ram, count);
        },
        Command::Neg => {
            assert(body == (prepare1(kept).0 + operation_code(c), prepare1(kept).1 + 1));
            assert(stack_ram(c, ram, static_start) == stack_ram(c, ram, 0));
            lemma_kept_unary_command(f, ram, c, kept, saved);
        },
        Command::Not => {
            assert(body == (prepare1(kept).0 + operation_code(c), prepare1(kept).1 + 1));
            assert(stack_ram(c, ram, static_start) == stack_ram(c, ram, 0));
            lemma_kept_unary_command(f, ram, c, kept, saved);
        },
        _ => {
            assert(body == (prepare2(kept).0 + operation_code(c), prepare2(kept).1 + 1));
            assert(stack_ram(c, ram, static_start) == stack_ram(c, ram, 0));
            assert(kept_compiles(c, ram, 0, kept, saved));
            lemma_kept_binary_command(f, ram, c, kept, saved);
        },
    }
}

/// Within a case of static dispatch, the code of a command does what the VM's step does:
/// for a command that works on the stack alone (push, pop, the arithmetic and logic
/// commands, label, and function at the start of a case), whose words lie where its
/// compiled code reads and writes them, the code run on a frame that holds the VM's RAM
/// with `kept` stack words on the operand stack ends with a frame that holds the RAM after
/// the step with as many words kept as the compiler counts after the command, and one more
/// command counted.
pub proof fn lemma_command_code_steps(
    p: ProgramSpec,
    s: RunSpec,
    kept: nat,
    jump: VmBranch,
    function_name: Option<Seq<char>>,
    labels: Map<Seq<char>, i32>,
    functions: Map<Seq<char>, i32>,
    calls: Map<usize, i32>,
    f: VmFrame, saved: Map<int, i32>,
)
    requires
        vm_step(p, s) is Some,
        kept_compiles(
            p.commands[s.current_command_index as int],
            s.ram,
            p.files[s.current_file_index as int].static_start,
            kept, saved,
        ),
        s.current_command_index < i32::MAX,
        frame_holds_kept(f, s.ram, kept, saved),
        f.branch is None,
    ensures
        frame_run(
            vm_tick_code() + command_body(
                p.commands[s.current_command_index as int],
                s.current_command_index as int,
                jump,
                p.files[s.current_file_index as int].static_start,
                function_name,
                labels,
                functions,
                calls,
                kept,
            ).0,
            f,
        ) matches Some(g) && frame_holds_kept(
            g,
            vm_step(p, s).unwrap().ram,
            command_body(
                p.commands[s.current_command_index as int],
                s.current_command_index as int,
                jump,
                p.files[s.current_file_index as int].static_start,
                function_name,
                labels,
                functions,
                calls,
                kept,
            ).1, saved,
        ) && g.ticks == i32_specs::wrapping_add(1, f.ticks) && g.jump_target == f.jump_target && g.branch is None,
{
    let i = s.current_command_index as int;
    let c = p.commands[i];
    let ss = p.files[s.current_file_index as int].static_start;
    lemma_vm_step_stack(p, s);
    let body = command_body(c, i, jump, ss, function_name, labels, functions, calls, kept);
    lemma_frame_run_concat(vm_tick_code(), body.0, f);
    lemma_tick(f);
    let f1 = VmFrame { ticks: i32_specs::wrapping_add(1, f.ticks), ..f };
    lemma_kept_command(f1, s.ram, ss, c, kept, i, jump, function_name, labels, functions, calls, saved);
}

/// The stores of the kept words from the `i`-th from the top on: each goes to its word
/// above SP's local.
proof fn lemma_drop_stores_run(f: VmFrame, ram: Seq<Word>, kept: nat, i: nat, saved: Map<int, i32>)
    requires
        i <= kept,
        registers_held(f, ram),
        f.branch is None,
        5 + kept <= ram[0],
        f.sp == (ram[0] - kept) * 4,
        f.stack.len() == kept - i,
        forall|j: int| 0 <= j < kept - i ==> #[trigger] f.stack[j] == ram[ram[0] - kept + j] as i32,
        forall|a: int|
            (5 <= a < ram[0] - kept || ram[0] - i <= a < ram[0]) ==> #[trigger] f.memory[a] == held_word(saved, ram, a),
        forall|a: int| #[trigger] saved.dom().contains(a) ==> 5 <= a < ram[0] - kept,
    ensures
        frame_run(drop_stores(kept, i), f) matches Some(g) && g.stack.len() == 0 && registers_held(g, ram)
            && g.sp == f.sp && g.branch is None && g.ticks == f.ticks && g.jump_target == f.jump_target && (
        forall|a: int| 5 <= a < ram[0] ==> #[trigger] g.memory[a] == held_word(saved, ram, a)),
    decreases kept - i,
{
    if i == kept {
        assert(drop_stores(kept, i) =~= Seq::<VmInstr>::empty());
        assert(frame_run(drop_stores(kept, i), f) == Some(f));
    } else {
        let n = (kept - i - 1) as int;
        let st = f.stack.subrange(0, n);
        let top = f.stack[n];
        assert(f.stack =~= st.push(top));
        let a = ram[0] - i - 1;
        let four = seq![
            VmInstr::LocalSet(VmLocal::Temp),
            VmInstr::LocalGet(VmLocal::Sp),
            VmInstr::LocalGet(VmLocal::Temp),
            VmInstr::I32Store(word_offset(kept - i - 1)),
        ];
        assert(drop_stores(kept, i) == four + drop_stores(kept, i + 1));
        let f1 = VmFrame { stack: st, temp: top, ..f };
        assert(st.push(top).drop_last() =~= st);
        assert(frame_step(f, four[0]) == Some(f1));
        let f2 = VmFrame { stack: st.push(f.sp), ..f1 };
        assert(frame_step(f1, four[1]) == Some(f2));
        let f3 = VmFrame { stack: st.push(f.sp).push(top), ..f1 };
        assert(frame_step(f2, four[2]) == Some(f3));
        assert(frame_word(f.memory, f.sp, word_offset(kept - i - 1)) == Some(a));
        let f4 = VmFrame { stack: st, memory: f.memory.update(a, top), ..f1 };
        assert(st.push(f.sp).push(top).subrange(0, n) =~= st);
        assert(frame_step(f3, four[3]) == Some(f4));
        assert(frame_run_from(four, 4, f4) == Some(f4));
        assert(frame_run_from(four, 3, f3) == Some(f4));
        assert(frame_run_from(four, 2, f2) == Some(f4));
        assert(frame_run_from(four, 1, f1) == Some(f4));
        assert(frame_run_from(four, 0, f) == Some(f4));
        lemma_frame_run_concat(four, drop_stores(kept, i + 1), f);
        assert forall|j: int| 0 <= j < kept - (i + 1) implies #[trigger] f4.stack[j] == ram[ram[0] - kept + j] as i32 by {
            assert(f4.stack[j] == f.stack[j]);
        }
        assert forall|b: int|
            (5 <= b < ram[0] - kept || ram[0] - (i + 1) <= b < ram[0]) implies #[trigger] f4.memory[b]
            == held_word(saved, ram, b) by {
            if b != a {
                assert(f4.memory[b] == f.memory[b]);
            }
        }
        lemma_drop_stores_run(f4, ram, kept, i + 1, saved);
    }
}

/// Moving the kept words to RAM, as a case of static dispatch ends, leaves a frame that
/// holds the RAM with no word kept.
pub proof fn lemma_drop_code_stores(f: VmFrame, ram: Seq<Word>, kept: nat, saved: Map<int, i32>)
    requires
        frame_holds_kept(f, ram, kept, saved),
        f.branch is None,
    ensures
        frame_run(drop_code(kept), f) matches Some(g) && frame_holds_kept(g, ram, 0, saved) && g.branch is None
            && g.ticks == f.ticks && g.jump_target == f.jump_target,
{
    lemma_drop_stores_run(f, ram, kept, 0, saved);
    let g1 = frame_run(drop_stores(kept, 0), f).unwrap();
    if kept > 0 {
        let tail = seq![
            VmInstr::LocalGet(VmLocal::Sp),
            VmInstr::I32Const((kept * 4) as i32),
            VmInstr::I32Add,
            VmInstr::LocalSet(VmLocal::Sp),
        ];
        assert(drop_code(kept) == drop_stores(kept, 0) + tail);
        lemma_frame_run_concat(drop_stores(kept, 0), tail, f);
        let e: Seq<i32> = Seq::empty();
        assert(g1.stack =~= e);
        let h1 = VmFrame { stack: e.push(g1.sp), ..g1 };
        assert(frame_step(g1, tail[0]) == Some(h1));
        let h2 = VmFrame { stack: e.push(g1.sp).push((kept * 4) as i32), ..g1 };
        assert(frame_step(h1, tail[1]) == Some(h2));
        let sum = i32_specs::wrapping_add(g1.sp, (kept * 4) as i32);
        let h3 = VmFrame { stack: e.push(sum), ..g1 };
        assert(e.push(g1.sp).push((kept * 4) as i32).subrange(0, 0) =~= e);
        assert(frame_step(h2, tail[2]) == Some(h3));
        let h4 = VmFrame { stack: e, sp: sum, ..g1 };
        assert(e.push(sum).drop_last() =~= e);
        assert(frame_step(h3, tail[3]) == Some(h4));
        assert(frame_run_from(tail, 4, h4) == Some(h4));
        assert(frame_run_from(tail, 3, h3) == Some(h4));
        assert(frame_run_from(tail, 2, h2) == Some(h4));
        assert(frame_run_from(tail, 1, h1) == Some(h4));
        assert(frame_run_from(tail, 0, g1) == Some(h4));
        assert(frame_holds_kept(h4, ram, 0, saved));
    } else {
        reveal_with_fuel(drop_stores, 1);
        assert(drop_code(0) =~= drop_stores(0, 0));
        assert(frame_holds_kept(g1, ram, 0, saved));
    }
}

// ---------------------------------------------------------------- dynamic dispatch: jumps

/// The label of a jump command.
pub open spec fn jump_label(c: Command) -> Seq<char> {
    match c {
        Command::Goto(label) => label,
        Command::IfGoto(label) => label,
        _ => Seq::empty(),
    }
}

/// For a jump, the VM's step leaves the RAM (popped for `if-goto`) and goes to the label's
/// command or on to the next.
proof fn lemma_vm_step_jump(p: ProgramSpec, s: RunSpec)
    requires
        vm_step(p, s) is Some,
        p.commands[s.current_command_index as int] is Goto || p.commands[s.current_command_index as int] is IfGoto,
        s.current_command_index < i32::MAX,
        s.ram.len() == MEM_SIZE,
    ensures
        s.current_command_index < p.commands.len(),
        p.commands[s.current_command_index as int] is Goto ==> vm_step(p, s).unwrap().ram == s.ram && Some(
            vm_step(p, s).unwrap().current_command_index,
        ) == jump_target(p, s, jump_label(p.commands[s.current_command_index as int])),
        p.commands[s.current_command_index as int] is IfGoto ==> 1 <= s.ram[0] && vm_step(p, s).unwrap().ram
            == s.ram.update(0, (s.ram[0] - 1) as Word),
        p.commands[s.current_command_index as int] is IfGoto && s.ram[0] - 1 != 0 && s.ram[s.ram[0] - 1] != 0
            ==> Some(vm_step(p, s).unwrap().current_command_index) == jump_target(
            p,
            s,
            jump_label(p.commands[s.current_command_index as int]),
        ),
        p.commands[s.current_command_index as int] is IfGoto && s.ram[0] - 1 != 0 && s.ram[s.ram[0] - 1] == 0
            ==> vm_step(p, s).unwrap().current_command_index == s.current_command_index + 1,
{
    let c = p.commands[s.current_command_index as int];
    if c is IfGoto {
        let q = pop_ram(s.ram).unwrap();
        assert(q.0 == s.ram.update(0, (s.ram[0] - 1) as Word));
        if s.ram[0] - 1 != 0 {
            assert(q.1 == s.ram[s.ram[0] - 1]);
        }
    }
}

/// A case of dynamic dispatch for a jump does what the VM's step does, where the label
/// table gives the label of the current function the command that the VM jumps to:
/// `goto` makes that command the jump target, `if-goto` pops the top word and makes it the
/// jump target where the word is not 0, else the next command (the popped word is not
/// scaled); either way the case leaves a frame that holds the RAM after the step and
/// branches back to the dispatch loop.
#[verifier::spinoff_prover]
#[verifier::rlimit(50)]
pub proof fn lemma_dynamic_jump_case_steps(
    p: ProgramSpec,
    s: RunSpec,
    scan: DynScan,
    function_name: Option<Seq<char>>,
    f: VmFrame,
    scaled: Set<int>,
)
    requires
        vm_step(p, s) is Some,
        p.commands[s.current_command_index as int] is Goto || p.commands[s.current_command_index as int] is IfGoto,
        function_name is Some,
        scan.labels.dom().contains(label_key(function_name.unwrap(), jump_label(p.commands[s.current_command_index as int]))),
        jump_target(p, s, jump_label(p.commands[s.current_command_index as int])) matches Some(t) ==> t
            == scan.labels[label_key(function_name.unwrap(), jump_label(p.commands[s.current_command_index as int]))],
        p.commands[s.current_command_index as int] is IfGoto ==> 6 <= s.ram[0],
        s.current_command_index < i32::MAX,
        frame_holds_scaled(f, s.ram, scaled),
        p.commands[s.current_command_index as int] is IfGoto ==> !scaled.contains(s.ram[0] - 1),
        f.stack.len() == 0,
        f.branch is None,
    ensures
        frame_run(
            dynamic_case(
                scan,
                function_name,
                s.current_command_index as int,
                p.files[s.current_file_index as int].static_start,
                p.commands[s.current_command_index as int],
            ),
            f,
        ) matches Some(g) && frame_holds_scaled(g, vm_step(p, s).unwrap().ram, scaled) && g.jump_target == vm_step(
            p,
            s,
        ).unwrap().current_command_index && g.ticks == i32_specs::wrapping_add(1, f.ticks) && g.branch == Some(
            VmBranch::Loop,
        ) && g.stack.len() == 0,
{
    let i = s.current_command_index as int;
    let c = p.commands[i];
    let ss = p.files[s.current_file_index as int].static_start;
    let label = jump_label(c);
    let target = scan.labels[label_key(function_name.unwrap(), label)];
    lemma_vm_step_jump(p, s);
    reveal_with_fuel(drop_stores, 1);
    assert(drop_code(0) =~= Seq::<VmInstr>::empty());
    let body = dyn_command_body(scan, function_name, i, ss, c);
    let mid = body.0 + drop_code(body.1);
    assert(dynamic_case(scan, function_name, i, ss, c) =~= vm_tick_code() + mid + next_case_code(i));
    lemma_frame_run_concat(vm_tick_code() + mid, next_case_code(i), f);
    lemma_frame_run_concat(vm_tick_code(), mid, f);
    lemma_tick(f);
    let f1 = VmFrame { ticks: i32_specs::wrapping_add(1, f.ticks), ..f };
    let e: Seq<i32> = Seq::empty();
    assert(f.stack =~= e);
    let set_target = seq![VmInstr::I32Const(target), VmInstr::LocalSet(VmLocal::JumpTarget)];
    let f2 = VmFrame { jump_target: target, ..f1 };
    assert(frame_step(f1, set_target[0]) == Some(VmFrame { stack: e.push(target), ..f1 }));
    assert(e.push(target).drop_last() =~= e);
    assert(frame_step(VmFrame { stack: e.push(target), ..f1 }, set_target[1]) == Some(f2));
    assert(frame_run_from(set_target, 2, f2) == Some(f2));
    assert(frame_run_from(set_target, 1, VmFrame { stack: e.push(target), ..f1 }) == Some(f2));
    assert(frame_run(set_target, f1) == Some(f2));
    if c is Goto {
        let tail = seq![VmInstr::Br(VmBranch::Loop)];
        assert(mid =~= set_target + tail);
        lemma_frame_run_concat(set_target, tail, f1);
        let f3 = VmFrame { branch: Some(VmBranch::Loop), ..f2 };
        assert(frame_step(f2, tail[0]) == Some(f3));
        assert(frame_run_from(tail, 1, f3) == Some(f3));
        assert(frame_run(tail, f2) == Some(f3));
        assert(frame_run(next_case_code(i), f3) == Some(f3));
    } else {
        let test = seq![VmInstr::I32Const(0), VmInstr::I32Ne, VmInstr::BrIf(VmBranch::Loop)];
        assert(mid =~= set_target + prepare1(0).0 + test);
        lemma_frame_run_concat(set_target + prepare1(0).0, test, f1);
        lemma_frame_run_concat(set_target, prepare1(0).0, f1);
        lemma_take_top(f2, s.ram);
        let v = s.ram[s.ram[0] - 1];
        let f3 = VmFrame { stack: seq![v as i32], sp: (f2.sp - 4) as i32, ..f2 };
        let r1 = s.ram.update(0, (s.ram[0] - 1) as Word);
        assert(frame_holds_scaled(VmFrame { stack: e, ..f3 }, r1, scaled));
        let f4 = VmFrame { stack: seq![v as i32].push(0), ..f3 };
        assert(frame_step(f3, test[0]) == Some(f4));
        let w = bool_word(v as i32 != 0);
        let f5 = VmFrame { stack: e.push(w), ..f3 };
        assert(seq![v as i32].push(0).subrange(0, 0) =~= e);
        assert(frame_step(f4, test[1]) == Some(f5));
        let f6 = VmFrame { stack: e, branch: if w != 0 { Some(VmBranch::Loop) } else { None }, ..f3 };
        assert(e.push(w).drop_last() =~= e);
        assert(frame_step(f5, test[2]) == Some(f6));
        assert(frame_run_from(test, 3, f6) == Some(f6));
        assert(frame_run_from(test, 2, f5) == Some(f6));
        assert(frame_run_from(test, 1, f4) == Some(f6));
        assert(frame_run(test, f3) == Some(f6));
        if v != 0 {
            assert(frame_run(next_case_code(i), f6) == Some(f6));
        } else {
            lemma_next_case(f6, i);
        }
    }
}


// ---------------------------------------------------------------- dynamic dispatch: calls and returns

/// Holding the RAM with no scaled words is holding it.
pub proof fn lemma_frame_holds_unscaled(f: VmFrame, ram: Seq<Word>)
    ensures
        frame_holds(f, ram) <==> frame_holds_scaled(f, ram, Set::empty()),
{
    if frame_holds_scaled(f, ram, Set::empty()) {
        assert forall|a: int| 5 <= a < ram.len() implies f.memory[a] == ram[a] as i32 by {
            assert(f.memory[a] == if Set::<int>::empty().contains(a) { (ram[a] * 4) as i32 } else { ram[a] as i32 });
        }
    }
}

/// The calls that the compiled code makes in place (the multiplication, the division and
/// the screen and memory functions it inlines) rather than through a frame.
pub open spec fn in_place_call(name: Seq<char>) -> bool {
    name == "Math.multiply"@ || name == "Math.divide"@ || name == "Screen.clearScreen"@ || name
        == "Screen.setColor"@ || name == "Screen.drawPixel"@ || name == "Memory.init"@ || name
        == "Memory.alloc"@ || name == "Array.new"@ || name == "Memory.deAlloc"@ || name == "Array.dispose"@
}

/// The RAM after a call of a function with `n` arguments pushes its frame at SP (the return
/// address `ret`, then LCL, ARG, THIS and THAT) and sets LCL above it and ARG `n` below it.
pub open spec fn call_ram(ram: Seq<Word>, ret: Word, n: Word) -> Seq<Word> {
    let b = ram[0] as int;
    ram.update(b, ret).update(b + 1, ram[1]).update(b + 2, ram[2]).update(b + 3, ram[3]).update(b + 4, ram[4]).update(
        0,
        (b + 5) as Word,
    ).update(1, (b + 5) as Word).update(2, (b - n) as Word)
}

/// The scaled words after a call pushes its frame at `b`: the return address is held as it
/// is, the four saved registers scaled.
pub open spec fn call_scaled(scaled: Set<int>, b: int) -> Set<int> {
    scaled.remove(b).insert(b + 1).insert(b + 2).insert(b + 3).insert(b + 4)
}

proof fn lemma_push_frame(ram: Seq<Word>, ret: Word)
    requires
        ram.len() == MEM_SIZE,
        5 <= ram[0],
        push_frame(ram, ret) is Some,
    ensures
        ram[0] + 5 <= i16::MAX,
        push_frame(ram, ret) == Some(
            ram.update(ram[0] as int, ret).update(ram[0] + 1, ram[1]).update(ram[0] + 2, ram[2]).update(
                ram[0] + 3,
                ram[3],
            ).update(ram[0] + 4, ram[4]).update(0, (ram[0] + 5) as Word),
        ),
{
    let b = ram[0] as int;
    let r0 = ram.update(b, ret).update(0, (b + 1) as Word);
    assert(push_ram(ram, ret) == Some(r0));
    let r1 = r0.update(b + 1, ram[1]).update(0, (b + 2) as Word);
    assert(push_ram(r0, r0[1]) == Some(r1));
    let r2 = r1.update(b + 2, ram[2]).update(0, (b + 3) as Word);
    assert(push_ram(r1, r1[2]) == Some(r2));
    let r3 = r2.update(b + 3, ram[3]).update(0, (b + 4) as Word);
    assert(push_ram(r2, r2[3]) == Some(r3));
    let r4 = r3.update(b + 4, ram[4]).update(0, (b + 5) as Word);
    assert(push_ram(r3, r3[4]) == Some(r4));
    assert(r4 =~= ram.update(b, ret).update(b + 1, ram[1]).update(b + 2, ram[2]).update(b + 3, ram[3]).update(
        b + 4,
        ram[4],
    ).update(0, (b + 5) as Word));
}

/// For a call that the VM makes through a frame, its step leaves the RAM of `call_ram` and
/// goes to the called function's first command.
proof fn lemma_vm_step_call(p: ProgramSpec, s: RunSpec, name: Seq<char>, n: Word)
    requires
        vm_step(p, s) is Some,
        p.commands[s.current_command_index as int] == Command::Call(name, n),
        os_function(name) is None,
        s.ram.len() == MEM_SIZE,
        5 <= s.ram[0],
        s.current_command_index + 1 <= i16::MAX,
    ensures
        s.current_command_index < p.commands.len(),
        s.ram[0] + 5 <= i16::MAX,
        i16::MIN <= s.ram[0] - n <= i16::MAX,
        p.functions.dom().contains(name),
        p.functions[name] < p.metadata.len(),
        s.current_command_index < p.commands.len(),
        vm_step(p, s).unwrap().ram == call_ram(s.ram, ((s.current_command_index + 1) as usize) as Word, n),
        vm_step(p, s).unwrap().current_command_index == p.metadata[p.functions[name] as int].command_index,
{
    let ret = (s.current_command_index + 1) as usize;
    lemma_push_frame(s.ram, ret as Word);
    let r = push_frame(s.ram, ret as Word).unwrap();
    let r2 = r.update(1, r[0]).update(2, (s.ram[0] - n) as Word);
    assert(os_call(name, r2, s.os) == Some(None::<(Seq<Word>, crate::os::OsState)>));
    assert(r2 =~= call_ram(s.ram, ret as Word, n));
}

/// A store at SP plus `k` of the value that `first` pushes.
#[verifier::spinoff_prover]
#[verifier::rlimit(30)]
proof fn lemma_store_at_sp(f: VmFrame, first: VmInstr, x: i32, k: u64, w: int)
    requires
        f.branch is None,
        frame_step(VmFrame { stack: f.stack.push(f.sp), ..f }, first) == Some(
            VmFrame { stack: f.stack.push(f.sp).push(x), ..f },
        ),
        frame_word(f.memory, f.sp, k) == Some(w),
    ensures
        frame_run(seq![VmInstr::LocalGet(VmLocal::Sp), first, VmInstr::I32Store(k)], f) == Some(
            VmFrame { memory: f.memory.update(w, x), ..f },
        ),
{
    let code = seq![VmInstr::LocalGet(VmLocal::Sp), first, VmInstr::I32Store(k)];
    let st = f.stack;
    let f1 = VmFrame { stack: st.push(f.sp), ..f };
    assert(frame_step(f, code[0]) == Some(f1));
    let f2 = VmFrame { stack: st.push(f.sp).push(x), ..f };
    let g = VmFrame { memory: f.memory.update(w, x), ..f };
    assert(st.push(f.sp).push(x).subrange(0, st.len() as int) =~= st);
    assert(frame_step(f2, code[2]) == Some(g));
    assert(frame_run_from(code, 3, g) == Some(g));
    assert(frame_run_from(code, 2, f2) == Some(g));
    assert(frame_run_from(code, 1, f1) == Some(g));
}

/// The code of a call that sets ARG `n` words below SP, and SP and LCL 5 words above it.
pub open spec fn call_registers_code(n: Word) -> Seq<VmInstr> {
    seq![VmInstr::LocalGet(VmLocal::Sp)] + (if n > 0 {
        seq![VmInstr::I32Const((n * 4) as i32), VmInstr::I32Sub]
    } else {
        seq![]
    }) + seq![
        VmInstr::LocalSet(VmLocal::Arg),
        VmInstr::LocalGet(VmLocal::Sp),
        VmInstr::I32Const(20),
        VmInstr::I32Add,
        VmInstr::LocalTee(VmLocal::Sp),
        VmInstr::LocalSet(VmLocal::Lcl),
    ]
}

#[verifier::spinoff_prover]
#[verifier::rlimit(30)]
proof fn lemma_call_registers(f: VmFrame, n: Word)
    requires
        f.branch is None,
        0 <= n,
        0 <= f.sp <= 0x20000,
    ensures
        frame_run(call_registers_code(n), f) == Some(
            VmFrame { arg: (f.sp - n * 4) as i32, sp: (f.sp + 20) as i32, lcl: (f.sp + 20) as i32, ..f },
        ),
{
    let st = f.stack;
    let code = call_registers_code(n);
    let a = (f.sp - n * 4) as i32;
    let f0 = VmFrame { stack: st.push(f.sp), ..f };
    let fa = VmFrame { stack: st.push(a), ..f };
    let k: int = if n > 0 { 3 } else { 1 };
    assert(frame_step(f, code[0]) == Some(f0));
    if n > 0 {
        let f1 = VmFrame { stack: st.push(f.sp).push((n * 4) as i32), ..f };
        assert(frame_step(f0, code[1]) == Some(f1));
        assert(st.push(f.sp).push((n * 4) as i32).subrange(0, st.len() as int) =~= st);
        assert(frame_step(f1, code[2]) == Some(fa));
        assert(frame_run_from(code, 1, f0) == frame_run_from(code, 3, fa)) by {
            assert(frame_run_from(code, 2, f1) == frame_run_from(code, 3, fa));
        }
    } else {
        assert(f0 == fa);
    }
    assert(frame_run(code, f) == frame_run_from(code, k, fa));
    let g1 = VmFrame { arg: a, ..f };
    assert(st.push(a).drop_last() =~= st);
    assert(frame_step(fa, code[k]) == Some(g1));
    let g2 = VmFrame { stack: st.push(f.sp), ..g1 };
    assert(frame_step(g1, code[k + 1]) == Some(g2));
    let g3 = VmFrame { stack: st.push(f.sp).push(20), ..g1 };
    assert(frame_step(g2, code[k + 2]) == Some(g3));
    let t = (f.sp + 20) as i32;
    let g4 = VmFrame { stack: st.push(t), ..g1 };
    assert(st.push(f.sp).push(20).subrange(0, st.len() as int) =~= st);
    assert(frame_step(g3, code[k + 3]) == Some(g4));
    let g5 = VmFrame { sp: t, ..g4 };
    assert(frame_step(g4, code[k + 4]) == Some(g5));
    let g6 = VmFrame { lcl: t, sp: t, ..g1 };
    assert(st.push(t).drop_last() =~= st);
    assert(frame_step(g5, code[k + 5]) == Some(g6));
    assert(frame_run_from(code, k + 6, g6) == Some(g6));
    assert(frame_run_from(code, k + 5, g5) == Some(g6));
    assert(frame_run_from(code, k + 4, g4) == Some(g6));
    assert(frame_run_from(code, k + 3, g3) == Some(g6));
    assert(frame_run_from(code, k + 2, g2) == Some(g6));
    assert(frame_run_from(code, k + 1, g1) == Some(g6));
}

/// Setting the jump target and going back to the dispatch loop.
proof fn lemma_jump_to(f: VmFrame, target: i32)
    requires
        f.branch is None,
    ensures
        frame_run(
            seq![VmInstr::I32Const(target), VmInstr::LocalSet(VmLocal::JumpTarget), VmInstr::Br(VmBranch::Loop)],
            f,
        ) == Some(VmFrame { jump_target: target, branch: Some(VmBranch::Loop), ..f }),
{
    reveal_with_fuel(frame_run_from, 4);
    assert(f.stack.push(target).drop_last() =~= f.stack);
}

/// The straight-line code of a call through a frame: the return address and the caller's
/// registers stored at SP, the callee's registers set, and a jump to `target`.
pub open spec fn call_frame_code(ret: i32, target: i32, n: Word) -> Seq<VmInstr> {
    seq![VmInstr::LocalGet(VmLocal::Sp), VmInstr::I32Const(ret), VmInstr::I32Store(0)] + save_frame_code()
        + call_registers_code(n) + seq![
        VmInstr::I32Const(target),
        VmInstr::LocalSet(VmLocal::JumpTarget),
        VmInstr::Br(VmBranch::Loop),
    ]
}

/// Memory after a call stores its frame at word `b`.
pub open spec fn call_memory(f: VmFrame, b: int, ret: i32) -> Seq<i32> {
    f.memory.update(b, ret).update(b + 1, f.lcl).update(b + 2, f.arg).update(b + 3, f.this).update(b + 4, f.that)
}

#[verifier::spinoff_prover]
proof fn lemma_call_frame_code(f: VmFrame, ret: i32, target: i32, n: Word, b: int)
    requires
        f.branch is None,
        f.sp == b * 4,
        5 <= b,
        b + 4 < f.memory.len(),
        f.memory.len() <= 0x8000,
        0 <= n,
    ensures
        frame_run(call_frame_code(ret, target, n), f) == Some(
            VmFrame {
                memory: call_memory(f, b, ret),
                arg: (f.sp - n * 4) as i32,
                sp: (f.sp + 20) as i32,
                lcl: (f.sp + 20) as i32,
                jump_target: target,
                branch: Some(VmBranch::Loop),
                ..f
            },
        ),
{
    let a0 = seq![VmInstr::LocalGet(VmLocal::Sp), VmInstr::I32Const(ret), VmInstr::I32Store(0)];
    let s1 = seq![VmInstr::LocalGet(VmLocal::Sp), VmInstr::LocalGet(VmLocal::Lcl), VmInstr::I32Store(4)];
    let s2 = seq![VmInstr::LocalGet(VmLocal::Sp), VmInstr::LocalGet(VmLocal::Arg), VmInstr::I32Store(8)];
    let s3 = seq![VmInstr::LocalGet(VmLocal::Sp), VmInstr::LocalGet(VmLocal::This), VmInstr::I32Store(12)];
    let s4 = seq![VmInstr::LocalGet(VmLocal::Sp), VmInstr::LocalGet(VmLocal::That), VmInstr::I32Store(16)];
    let jmp = seq![VmInstr::I32Const(target), VmInstr::LocalSet(VmLocal::JumpTarget), VmInstr::Br(VmBranch::Loop)];
    assert(save_frame_code() =~= s1 + s2 + s3 + s4);
    let c1 = a0;
    let c2 = c1 + s1;
    let c3 = c2 + s2;
    let c4 = c3 + s3;
    let c5 = c4 + s4;
    let c6 = c5 + call_registers_code(n);
    let c7 = c6 + jmp;
    assert(call_frame_code(ret, target, n) =~= c7);
    let m1 = f.memory.update(b, ret);
    let h1 = VmFrame { memory: m1, ..f };
    lemma_store_at_sp(f, VmInstr::I32Const(ret), ret, 0, b);
    let m2 = m1.update(b + 1, f.lcl);
    let h2 = VmFrame { memory: m2, ..f };
    lemma_store_at_sp(h1, VmInstr::LocalGet(VmLocal::Lcl), f.lcl, 4, b + 1);
    lemma_frame_run_concat(c1, s1, f);
    let m3 = m2.update(b + 2, f.arg);
    let h3 = VmFrame { memory: m3, ..f };
    lemma_store_at_sp(h2, VmInstr::LocalGet(VmLocal::Arg), f.arg, 8, b + 2);
    lemma_frame_run_concat(c2, s2, f);
    let m4 = m3.update(b + 3, f.this);
    let h4 = VmFrame { memory: m4, ..f };
    lemma_store_at_sp(h3, VmInstr::LocalGet(VmLocal::This), f.this, 12, b + 3);
    lemma_frame_run_concat(c3, s3, f);
    let m5 = m4.update(b + 4, f.that);
    let h5 = VmFrame { memory: m5, ..f };
    lemma_store_at_sp(h4, VmInstr::LocalGet(VmLocal::That), f.that, 16, b + 4);
    lemma_frame_run_concat(c4, s4, f);
    lemma_call_registers(h5, n);
    let h6 = VmFrame { arg: (f.sp - n * 4) as i32, sp: (f.sp + 20) as i32, lcl: (f.sp + 20) as i32, ..h5 };
    lemma_frame_run_concat(c5, call_registers_code(n), f);
    lemma_jump_to(h6, target);
    lemma_frame_run_concat(c6, jmp, f);
}

/// After the call's code, the frame holds the RAM of the call with its saved registers
/// scaled.
proof fn lemma_call_holds(f: VmFrame, g: VmFrame, ram: Seq<Word>, scaled: Set<int>, ret: Word, n: Word)
    requires
        frame_holds_scaled(f, ram, scaled),
        5 <= ram[0],
        ram[0] + 5 <= i16::MAX,
        i16::MIN <= ram[0] - n <= i16::MAX,
        0 <= n,
        g.memory == call_memory(f, ram[0] as int, ret as i32),
        g.arg == (f.sp - n * 4) as i32,
        g.sp == (f.sp + 20) as i32,
        g.lcl == (f.sp + 20) as i32,
        g.this == f.this,
        g.that == f.that,
    ensures
        frame_holds_scaled(g, call_ram(ram, ret, n), call_scaled(scaled, ram[0] as int)),
{
    let b = ram[0] as int;
    let r = call_ram(ram, ret, n);
    let sc = call_scaled(scaled, b);
    assert forall|a: int| 5 <= a < r.len() implies #[trigger] g.memory[a] == if sc.contains(a) {
        (r[a] * 4) as i32
    } else {
        r[a] as i32
    } by {
        if a == b {
        } else if a == b + 1 {
        } else if a == b + 2 {
        } else if a == b + 3 {
        } else if a == b + 4 {
        } else {
            assert(g.memory[a] == f.memory[a]);
            assert(r[a] == ram[a]);
            assert(sc.contains(a) == scaled.contains(a));
        }
    }
}

/// The case of a call through a frame is the ticks counter, the call's frame code, and the
/// jump to the next case (which the call's branch skips).
proof fn lemma_call_case_code(scan: DynScan, function_name: Option<Seq<char>>, i: int, ss: Word, name: Seq<char>, n: Word)
    requires
        !in_place_call(name),
    ensures
        dynamic_case(scan, function_name, i, ss, Command::Call(name, n)) == vm_tick_code() + call_frame_code(
            scan.calls[(i + 1) as usize],
            scan.functions[name],
            n,
        ) + next_case_code(i),
{
    reveal_with_fuel(drop_stores, 1);
    assert(drop_code(0) =~= Seq::<VmInstr>::empty());
    let body = dyn_command_body(scan, function_name, i, ss, Command::Call(name, n));
    assert(body.1 == 0);
    assert(body.0 + drop_code(body.1) =~= call_frame_code(scan.calls[(i + 1) as usize], scan.functions[name], n));
    assert(dynamic_case(scan, function_name, i, ss, Command::Call(name, n)) =~= vm_tick_code() + call_frame_code(
        scan.calls[(i + 1) as usize],
        scan.functions[name],
        n,
    ) + next_case_code(i));
}

/// A case of dynamic dispatch for a call that the VM makes through a frame (not a function
/// of the operating system that the VM runs itself, and not one that the compiled code
/// makes in place) does what the VM's step does, where the first pass found the call's
/// return case at the next command and the function's case at its first command: the case
/// saves the return address and the caller's registers at SP, sets ARG, LCL and SP for
/// the callee, and makes the function's first command the jump target. The frame it leaves
/// holds the RAM after the step, with the four saved registers scaled.
#[verifier::spinoff_prover]
#[verifier::rlimit(50)]
pub proof fn lemma_dynamic_call_case_steps(
    p: ProgramSpec,
    s: RunSpec,
    scan: DynScan,
    function_name: Option<Seq<char>>,
    f: VmFrame,
    scaled: Set<int>,
    name: Seq<char>,
    n: Word,
)
    requires
        vm_step(p, s) is Some,
        p.commands[s.current_command_index as int] == Command::Call(name, n),
        os_function(name) is None,
        !in_place_call(name),
        0 <= n,
        5 <= s.ram[0],
        s.current_command_index + 1 <= i16::MAX,
        scan.calls.dom().contains((s.current_command_index + 1) as usize),
        scan.calls[(s.current_command_index + 1) as usize] == s.current_command_index + 1,
        scan.functions.dom().contains(name),
        p.functions.dom().contains(name) ==> p.functions[name] < p.metadata.len() ==> scan.functions[name]
            == p.metadata[p.functions[name] as int].command_index,
        frame_holds_scaled(f, s.ram, scaled),
        f.stack.len() == 0,
        f.branch is None,
    ensures
        frame_run(
            dynamic_case(
                scan,
                function_name,
                s.current_command_index as int,
                p.files[s.current_file_index as int].static_start,
                p.commands[s.current_command_index as int],
            ),
            f,
        ) matches Some(g) && frame_holds_scaled(g, vm_step(p, s).unwrap().ram, call_scaled(scaled, s.ram[0] as int))
            && g.jump_target == vm_step(p, s).unwrap().current_command_index && g.ticks == i32_specs::wrapping_add(
            1,
            f.ticks,
        ) && g.branch == Some(VmBranch::Loop) && g.stack.len() == 0,
{
    let i = s.current_command_index as int;
    let c = p.commands[i];
    let ss = p.files[s.current_file_index as int].static_start;
    let ram = s.ram;
    lemma_vm_step_call(p, s, name, n);
    let b = ram[0] as int;
    let ret = (i + 1) as i32;
    let target = scan.functions[name];
    let mid = call_frame_code(ret, target, n);
    lemma_call_case_code(scan, function_name, i, ss, name, n);
    lemma_frame_run_concat(vm_tick_code() + mid, next_case_code(i), f);
    lemma_frame_run_concat(vm_tick_code(), mid, f);
    lemma_tick(f);
    let f1 = VmFrame { ticks: i32_specs::wrapping_add(1, f.ticks), ..f };
    lemma_call_frame_code(f1, ret, target, n, b);
    let g = VmFrame {
        memory: call_memory(f1, b, ret),
        arg: (f.sp - n * 4) as i32,
        sp: (f.sp + 20) as i32,
        lcl: (f.sp + 20) as i32,
        jump_target: target,
        branch: Some(VmBranch::Loop),
        ..f1
    };
    assert(frame_run(next_case_code(i), g) == Some(g));
    lemma_call_holds(f1, g, ram, scaled, (i + 1) as Word, n);
}

/// Loading the word at `temp` plus `k` into a local.
proof fn lemma_restore_local(f: VmFrame, k: u64, l: VmLocal, w: int)
    requires
        f.branch is None,
        frame_word(f.memory, f.temp, k) == Some(w),
    ensures
        frame_run(seq![VmInstr::LocalGet(VmLocal::Temp), VmInstr::I32Load(k), VmInstr::LocalSet(l)], f) == Some(
            with_local(f, l, f.memory[w]),
        ),
{
    let st = f.stack;
    lemma_load_word(f, VmInstr::LocalGet(VmLocal::Temp), f.temp, k, w);
    let h = VmFrame { stack: st.push(f.memory[w]), ..f };
    assert(st.push(f.memory[w]).drop_last() =~= st);
    assert(frame_step(h, VmInstr::LocalSet(l)) == Some(with_local(f, l, f.memory[w])));
    let c1 = seq![VmInstr::LocalGet(VmLocal::Temp), VmInstr::I32Load(k)];
    let c2 = seq![VmInstr::LocalSet(l)];
    assert(frame_run_from(c2, 1, with_local(f, l, f.memory[w])) == Some(with_local(f, l, f.memory[w])));
    lemma_frame_run_concat(c1, c2, f);
    assert(c1 + c2 =~= seq![VmInstr::LocalGet(VmLocal::Temp), VmInstr::I32Load(k), VmInstr::LocalSet(l)]);
}

/// The first part of a return's code, up to the restoring of the caller's registers.
pub open spec fn return_head_code() -> Seq<VmInstr> {
    seq![
        VmInstr::LocalSet(VmLocal::Temp2),
        VmInstr::LocalGet(VmLocal::Lcl),
        VmInstr::I32Const(20),
        VmInstr::I32Sub,
        VmInstr::LocalTee(VmLocal::Temp),
        VmInstr::I32Load(0),
        VmInstr::LocalSet(VmLocal::JumpTarget),
        VmInstr::LocalGet(VmLocal::Arg),
        VmInstr::LocalGet(VmLocal::Temp2),
        VmInstr::I32Store(0),
        VmInstr::LocalGet(VmLocal::Arg),
        VmInstr::I32Const(4),
        VmInstr::I32Add,
        VmInstr::LocalSet(VmLocal::Sp),
    ]
}

/// The first part of a return: the return value set aside, the frame's address in `temp`,
/// the return address as the jump target, the return value stored at ARG and SP just
/// above it.
#[verifier::spinoff_prover]
#[verifier::rlimit(30)]
proof fn lemma_return_head(f: VmFrame, st: Seq<i32>, v: i32, base: int, argw: int)
    requires
        f.branch is None,
        f.stack == st.push(v),
        f.lcl == (base + 5) * 4,
        f.arg == argw * 4,
        0 <= base,
        0 <= argw,
        base < f.memory.len(),
        argw < f.memory.len(),
        f.memory.len() <= 0x8000,
    ensures
        frame_run(return_head_code(), f) == Some(
            VmFrame {
                stack: st,
                temp2: v,
                temp: (base * 4) as i32,
                jump_target: f.memory[base],
                memory: f.memory.update(argw, v),
                sp: (f.arg + 4) as i32,
                ..f
            },
        ),
{
    let code = return_head_code();
    let e = st;
    let t = (base * 4) as i32;
    let j = f.memory[base];
    let f1 = VmFrame { stack: e, temp2: v, ..f };
    assert(st.push(v).drop_last() =~= e);
    assert(frame_step(f, code[0]) == Some(f1));
    let f2 = VmFrame { stack: e.push(f.lcl), ..f1 };
    assert(frame_step(f1, code[1]) == Some(f2));
    let f3 = VmFrame { stack: e.push(f.lcl).push(20), ..f1 };
    assert(frame_step(f2, code[2]) == Some(f3));
    let f4 = VmFrame { stack: e.push(t), ..f1 };
    assert(e.push(f.lcl).push(20).subrange(0, st.len() as int) =~= e);
    assert(frame_step(f3, code[3]) == Some(f4));
    let f5 = VmFrame { temp: t, ..f4 };
    assert(frame_step(f4, code[4]) == Some(f5));
    let f6 = VmFrame { stack: e.push(j), temp: t, ..f1 };
    assert(frame_word(f.memory, t, 0) == Some(base));
    assert(e.push(t).drop_last() =~= e);
    assert(frame_step(f5, code[5]) == Some(f6));
    let f7 = VmFrame { stack: e, temp: t, jump_target: j, ..f1 };
    assert(e.push(j).drop_last() =~= e);
    assert(frame_step(f6, code[6]) == Some(f7));
    let f8 = VmFrame { stack: e.push(f.arg), ..f7 };
    assert(frame_step(f7, code[7]) == Some(f8));
    let f9 = VmFrame { stack: e.push(f.arg).push(v), ..f7 };
    assert(frame_step(f8, code[8]) == Some(f9));
    let m = f.memory.update(argw, v);
    let f10 = VmFrame { memory: m, ..f7 };
    assert(frame_word(f.memory, f.arg, 0) == Some(argw));
    assert(e.push(f.arg).push(v).subrange(0, st.len() as int) =~= e);
    assert(frame_step(f9, code[9]) == Some(f10));
    let f11 = VmFrame { stack: e.push(f.arg), ..f10 };
    assert(frame_step(f10, code[10]) == Some(f11));
    let f12 = VmFrame { stack: e.push(f.arg).push(4), ..f10 };
    assert(frame_step(f11, code[11]) == Some(f12));
    let a4 = (f.arg + 4) as i32;
    let f13 = VmFrame { stack: e.push(a4), ..f10 };
    assert(e.push(f.arg).push(4).subrange(0, st.len() as int) =~= e);
    assert(frame_step(f12, code[12]) == Some(f13));
    let f14 = VmFrame { sp: a4, ..f10 };
    assert(e.push(a4).drop_last() =~= e);
    assert(frame_step(f13, code[13]) == Some(f14));
    assert(frame_run_from(code, 14, f14) == Some(f14));
    assert(frame_run_from(code, 13, f13) == Some(f14));
    assert(frame_run_from(code, 12, f12) == Some(f14));
    assert(frame_run_from(code, 11, f11) == Some(f14));
    assert(frame_run_from(code, 10, f10) == Some(f14));
    assert(frame_run_from(code, 9, f9) == Some(f14));
    assert(frame_run_from(code, 8, f8) == Some(f14));
    assert(frame_run_from(code, 7, f7) == Some(f14));
    assert(frame_run_from(code, 6, f6) == Some(f14));
    assert(frame_run_from(code, 5, f5) == Some(f14));
    assert(frame_run_from(code, 4, f4) == Some(f14));
    assert(frame_run_from(code, 3, f3) == Some(f14));
    assert(frame_run_from(code, 2, f2) == Some(f14));
    assert(frame_run_from(code, 1, f1) == Some(f14));
}

/// The code that restores the caller's registers from the frame at `temp`.
pub open spec fn restore_code(jump: VmBranch) -> Seq<VmInstr> {
    seq![
        VmInstr::LocalGet(VmLocal::Temp),
        VmInstr::I32Load(4),
        VmInstr::LocalSet(VmLocal::Lcl),
        VmInstr::LocalGet(VmLocal::Temp),
        VmInstr::I32Load(8),
        VmInstr::LocalSet(VmLocal::Arg),
        VmInstr::LocalGet(VmLocal::Temp),
        VmInstr::I32Load(12),
        VmInstr::LocalSet(VmLocal::This),
        VmInstr::LocalGet(VmLocal::Temp),
        VmInstr::I32Load(16),
        VmInstr::LocalSet(VmLocal::That),
        VmInstr::Br(jump),
    ]
}

proof fn lemma_restore_code(f: VmFrame, base: int)
    requires
        f.branch is None,
        f.temp == base * 4,
        0 <= base,
        base + 4 < f.memory.len(),
        f.memory.len() <= 0x8000,
    ensures
        frame_run(restore_code(VmBranch::Loop), f) == Some(
            VmFrame {
                lcl: f.memory[base + 1],
                arg: f.memory[base + 2],
                this: f.memory[base + 3],
                that: f.memory[base + 4],
                branch: Some(VmBranch::Loop),
                ..f
            },
        ),
{
    let l1 = seq![VmInstr::LocalGet(VmLocal::Temp), VmInstr::I32Load(4), VmInstr::LocalSet(VmLocal::Lcl)];
    let l2 = seq![VmInstr::LocalGet(VmLocal::Temp), VmInstr::I32Load(8), VmInstr::LocalSet(VmLocal::Arg)];
    let l3 = seq![VmInstr::LocalGet(VmLocal::Temp), VmInstr::I32Load(12), VmInstr::LocalSet(VmLocal::This)];
    let l4 = seq![VmInstr::LocalGet(VmLocal::Temp), VmInstr::I32Load(16), VmInstr::LocalSet(VmLocal::That)];
    let br = seq![VmInstr::Br(VmBranch::Loop)];
    assert(restore_code(VmBranch::Loop) =~= l1 + l2 + l3 + l4 + br);
    let m = f.memory;
    let h1 = VmFrame { lcl: m[base + 1], ..f };
    lemma_restore_local(f, 4, VmLocal::Lcl, base + 1);
    let h2 = VmFrame { arg: m[base + 2], ..h1 };
    lemma_restore_local(h1, 8, VmLocal::Arg, base + 2);
    lemma_frame_run_concat(l1, l2, f);
    let h3 = VmFrame { this: m[base + 3], ..h2 };
    lemma_restore_local(h2, 12, VmLocal::This, base + 3);
    lemma_frame_run_concat(l1 + l2, l3, f);
    let h4 = VmFrame { that: m[base + 4], ..h3 };
    lemma_restore_local(h3, 16, VmLocal::That, base + 4);
    lemma_frame_run_concat(l1 + l2 + l3, l4, f);
    let g = VmFrame { branch: Some(VmBranch::Loop), ..h4 };
    assert(frame_step(h4, br[0]) == Some(g));
    assert(frame_run_from(br, 1, g) == Some(g));
    lemma_frame_run_concat(l1 + l2 + l3 + l4, br, f);
}

/// The RAM after a return from the frame at `base` (its return address; the saved
/// registers follow it) with the value `v`: `v` is argument 0, SP is just above it, and
/// LCL, ARG, THIS and THAT are the saved ones.
pub open spec fn returned_ram(ram: Seq<Word>, base: int, v: Word) -> Seq<Word> {
    ram.update(ram[2] as int, v).update(0, (ram[2] + 1) as Word).update(1, ram[base + 1]).update(2, ram[base + 2]).update(
        3,
        ram[base + 3],
    ).update(4, ram[base + 4])
}

/// For a return from a frame that lies above the registers, to an argument 0 that lies
/// above them and outside the saved registers, the VM's step leaves the RAM of
/// `returned_ram` and goes on at the saved return address.
proof fn lemma_vm_step_return(p: ProgramSpec, s: RunSpec)
    requires
        vm_step(p, s) is Some,
        p.commands[s.current_command_index as int] == Command::Return,
        s.ram.len() == MEM_SIZE,
        6 <= s.ram[0],
        10 <= s.ram[1],
        5 <= s.ram[2],
        !(s.ram[1] - 4 <= s.ram[2] <= s.ram[1] - 1),
        0 <= s.ram[s.ram[1] - 5],
    ensures
        vm_step(p, s).unwrap().ram == returned_ram(s.ram, s.ram[1] - 5, s.ram[s.ram[0] - 1]),
        vm_step(p, s).unwrap().current_command_index == s.ram[s.ram[1] - 5],
        s.ram[2] < i16::MAX,
{
    let ram = s.ram;
    let base = ram[1] - 5;
    let ss = p.files[s.current_file_index as int].static_start;
    let q = pop_ram(ram).unwrap();
    let v = ram[ram[0] - 1];
    assert(q.0 == ram.update(0, (ram[0] - 1) as Word));
    assert(q.1 == v);
    assert(pop_address(q.0, ss, PopSegment::Argument, 0) == Some(ram[2]));
    let r2 = q.0.update(ram[2] as int, v);
    assert(return_ram(ram, ram[1], ss) is Some);
    let t = return_ram(ram, ram[1], ss).unwrap();
    assert(t.0 == restore_registers(r2.update(0, (r2[2] + 1) as Word), base));
    assert(t.0 =~= returned_ram(ram, base, v));
}

/// The case of a return is the ticks counter, the top of the VM stack taken, the return's
/// code, and the jump to the next case (which the return's branch skips).
proof fn lemma_return_case_code(scan: DynScan, function_name: Option<Seq<char>>, i: int, ss: Word)
    ensures
        dynamic_case(scan, function_name, i, ss, Command::Return) == vm_tick_code() + prepare1(0).0
            + return_head_code() + restore_code(VmBranch::Loop) + next_case_code(i),
{
    reveal_with_fuel(drop_stores, 1);
    assert(drop_code(0) =~= Seq::<VmInstr>::empty());
    assert(return_code(VmBranch::Loop) =~= return_head_code() + restore_code(VmBranch::Loop));
    let body = dyn_command_body(scan, function_name, i, ss, Command::Return);
    assert(body.1 == 0);
    assert(dynamic_case(scan, function_name, i, ss, Command::Return) =~= vm_tick_code() + prepare1(0).0
        + return_head_code() + restore_code(VmBranch::Loop) + next_case_code(i));
}

/// The four registers saved above the return address at `base` are scaled.
pub open spec fn saved_registers_scaled(scaled: Set<int>, base: int) -> bool {
    scaled.contains(base + 1) && scaled.contains(base + 2) && scaled.contains(base + 3) && scaled.contains(base + 4)
}

/// After the return's code, the frame holds the RAM of the return, with argument 0 no
/// longer scaled.
proof fn lemma_return_holds(f: VmFrame, g: VmFrame, ram: Seq<Word>, scaled: Set<int>, base: int, v: Word)
    requires
        frame_holds_scaled(f, ram, scaled),
        5 <= base,
        base + 4 < ram.len(),
        5 <= ram[2] < i16::MAX,
        !(base + 1 <= ram[2] <= base + 4),
        saved_registers_scaled(scaled, base),
        g.memory == f.memory.update(ram[2] as int, v as i32),
        g.sp == (f.arg + 4) as i32,
        g.lcl == f.memory[base + 1],
        g.arg == f.memory[base + 2],
        g.this == f.memory[base + 3],
        g.that == f.memory[base + 4],
    ensures
        frame_holds_scaled(g, returned_ram(ram, base, v), scaled.remove(ram[2] as int)),
{
    let r = returned_ram(ram, base, v);
    let sc = scaled.remove(ram[2] as int);
    assert(f.memory[base + 1] == (ram[base + 1] * 4) as i32);
    assert(f.memory[base + 2] == (ram[base + 2] * 4) as i32);
    assert(f.memory[base + 3] == (ram[base + 3] * 4) as i32);
    assert(f.memory[base + 4] == (ram[base + 4] * 4) as i32);
    assert forall|a: int| 5 <= a < r.len() implies #[trigger] g.memory[a] == if sc.contains(a) {
        (r[a] * 4) as i32
    } else {
        r[a] as i32
    } by {
        if a != ram[2] {
            assert(g.memory[a] == f.memory[a]);
            assert(r[a] == ram[a]);
        }
    }
}

/// A case of dynamic dispatch for a return does what the VM's step does, where the frame
/// returned from lies above the registers with its return address held as it is and the
/// four saved registers scaled (as a call's case leaves them), the top of the VM stack is
/// not scaled, and argument 0 lies above the registers and outside the saved registers:
/// the case stores the top of the stack at argument 0, sets SP just above it, restores the
/// caller's registers and makes the return address the jump target. The frame it leaves
/// holds the RAM after the step, with argument 0 no longer scaled.
#[verifier::spinoff_prover]
#[verifier::rlimit(50)]
pub proof fn lemma_dynamic_return_case_steps(
    p: ProgramSpec,
    s: RunSpec,
    scan: DynScan,
    function_name: Option<Seq<char>>,
    f: VmFrame,
    scaled: Set<int>,
)
    requires
        vm_step(p, s) is Some,
        p.commands[s.current_command_index as int] == Command::Return,
        6 <= s.ram[0],
        10 <= s.ram[1],
        5 <= s.ram[2],
        !(s.ram[1] - 4 <= s.ram[2] <= s.ram[1] - 1),
        0 <= s.ram[s.ram[1] - 5],
        frame_holds_scaled(f, s.ram, scaled),
        !scaled.contains(s.ram[0] - 1),
        !scaled.contains(s.ram[1] - 5),
        saved_registers_scaled(scaled, s.ram[1] - 5),
        f.stack.len() == 0,
        f.branch is None,
    ensures
        frame_run(
            dynamic_case(
                scan,
                function_name,
                s.current_command_index as int,
                p.files[s.current_file_index as int].static_start,
                p.commands[s.current_command_index as int],
            ),
            f,
        ) matches Some(g) && frame_holds_scaled(g, vm_step(p, s).unwrap().ram, scaled.remove(s.ram[2] as int))
            && g.jump_target == vm_step(p, s).unwrap().current_command_index && g.ticks == i32_specs::wrapping_add(
            1,
            f.ticks,
        ) && g.branch == Some(VmBranch::Loop) && g.stack.len() == 0,
{
    let i = s.current_command_index as int;
    let ss = p.files[s.current_file_index as int].static_start;
    let ram = s.ram;
    let base = ram[1] - 5;
    let v = ram[ram[0] - 1];
    lemma_vm_step_return(p, s);
    lemma_return_case_code(scan, function_name, i, ss);
    let c1 = vm_tick_code();
    let c2 = c1 + prepare1(0).0;
    let c3 = c2 + return_head_code();
    let c4 = c3 + restore_code(VmBranch::Loop);
    lemma_frame_run_concat(c1, prepare1(0).0, f);
    lemma_frame_run_concat(c2, return_head_code(), f);
    lemma_frame_run_concat(c3, restore_code(VmBranch::Loop), f);
    lemma_frame_run_concat(c4, next_case_code(i), f);
    lemma_tick(f);
    let f1 = VmFrame { ticks: i32_specs::wrapping_add(1, f.ticks), ..f };
    assert(f1.memory[ram[0] - 1] == ram[ram[0] - 1] as i32);
    lemma_take_top(f1, ram);
    let f2 = VmFrame { stack: seq![v as i32], sp: (f1.sp - 4) as i32, ..f1 };
    assert(seq![v as i32] =~= Seq::<i32>::empty().push(v as i32));
    lemma_return_head(f2, Seq::empty(), v as i32, base, ram[2] as int);
    let f3 = VmFrame {
        stack: Seq::empty(),
        temp2: v as i32,
        temp: (base * 4) as i32,
        jump_target: f.memory[base],
        memory: f.memory.update(ram[2] as int, v as i32),
        sp: (f.arg + 4) as i32,
        ..f2
    };
    lemma_restore_code(f3, base);
    let g = VmFrame {
        lcl: f3.memory[base + 1],
        arg: f3.memory[base + 2],
        this: f3.memory[base + 3],
        that: f3.memory[base + 4],
        branch: Some(VmBranch::Loop),
        ..f3
    };
    assert(frame_run(next_case_code(i), g) == Some(g));
    assert(f.memory[base] == ram[base] as i32);
    lemma_return_holds(f, g, ram, scaled, base, v);
}

// ---------------------------------------------------------------- dynamic dispatch: arithmetic calls in place

/// What `Math.multiply` and `Math.divide` give for the arguments `x` and `y`: the product,
/// or the quotient rounded toward zero.
pub open spec fn arithmetic_call_result(name: Seq<char>, x: Word, y: Word) -> int {
    if name == "Math.multiply"@ {
        x * y
    } else {
        trunc_div(x as int, y as int)
    }
}

/// The RAM after a call of `Math.multiply` or `Math.divide` with the two top words as its
/// arguments, as far as it lies at and below SP: the result replaces the first argument
/// and SP is just above it. (The VM also leaves the call's frame and result above SP.)
pub open spec fn arithmetic_call_ram(ram: Seq<Word>, name: Seq<char>) -> Seq<Word> {
    let b = ram[0] as int;
    ram.update(b - 2, arithmetic_call_result(name, ram[b - 2], ram[b - 1]) as Word).update(0, (b - 1) as Word)
}

/// The operating-system function that runs `Math.multiply` or `Math.divide`.
proof fn lemma_arithmetic_os_function(name: Seq<char>)
    requires
        name == "Math.multiply"@ || name == "Math.divide"@,
    ensures
        os_function(name) == Some(
            if name == "Math.multiply"@ {
                OsFunction::MathMultiply
            } else {
                OsFunction::MathDivide
            },
        ),
        in_place_call(name),
        "Math.multiply"@ != "Math.divide"@,
{
    reveal_strlit("Math.init");
    reveal_strlit("Math.multiply");
    reveal_strlit("Math.divide");
    assert("Math.init"@.len() != "Math.multiply"@.len());
    assert("Math.init"@.len() != "Math.divide"@.len());
    assert("Math.multiply"@.len() != "Math.divide"@.len());
}

/// For a call of `Math.multiply` or `Math.divide` with two arguments above the registers,
/// the VM's step (which pushes a frame, runs the function itself and returns) leaves the
/// RAM of `arithmetic_call_ram` at and below SP, changes nothing above the frame it used,
/// and goes on to the next command.
#[verifier::spinoff_prover]
#[verifier::rlimit(50)]
proof fn lemma_vm_step_arithmetic_call(p: ProgramSpec, s: RunSpec, name: Seq<char>)
    requires
        vm_step(p, s) is Some,
        p.commands[s.current_command_index as int] == Command::Call(name, 2),
        name == "Math.multiply"@ || name == "Math.divide"@,
        s.ram.len() == MEM_SIZE,
        7 <= s.ram[0],
        s.current_command_index + 1 <= i16::MAX,
    ensures
        i16::MIN <= arithmetic_call_result(name, s.ram[s.ram[0] - 2], s.ram[s.ram[0] - 1]) <= i16::MAX,
        name == "Math.divide"@ ==> s.ram[s.ram[0] - 1] != 0,
        s.ram[0] + 6 <= i16::MAX,
        vm_step(p, s).unwrap().current_command_index == s.current_command_index + 1,
        vm_step(p, s).unwrap().ram.len() == MEM_SIZE,
        forall|a: int|
            0 <= a < MEM_SIZE && !(s.ram[0] <= a <= s.ram[0] + 5) ==> #[trigger] vm_step(p, s).unwrap().ram[a]
                == arithmetic_call_ram(s.ram, name)[a],
{
    lemma_arithmetic_os_function(name);
    let ram = s.ram;
    let b = ram[0] as int;
    let i = s.current_command_index as int;
    let ss = p.files[s.current_file_index as int].static_start;
    let ret = (i + 1) as Word;
    lemma_push_frame(ram, ret);
    let r = push_frame(ram, ret).unwrap();
    let r2 = r.update(1, r[0]).update(2, (b - 2) as Word);
    let x = ram[b - 2];
    let y = ram[b - 1];
    assert(arg(r2, 0) == Some(x));
    assert(arg(r2, 1) == Some(y));
    assert(os_call(name, r2, s.os) is Some);
    let f = os_function(name).unwrap();
    assert(os_effect(f, r2, s.os) is Some);
    let e = os_effect(f, r2, s.os).unwrap();
    if name == "Math.divide"@ {
        assert(f == OsFunction::MathDivide);
        assert(y != 0);
    }
    let v = arithmetic_call_result(name, x, y);
    assert(e.0 == r2 && e.2 == v as Word);
    let r3 = r2.update(b + 5, v as Word).update(0, (b + 6) as Word);
    assert(push_ram(r2, v as Word) == Some(r3));
    assert(os_call(name, r2, s.os) == Some(Some((r3, e.1))));
    let q = pop_ram(r3).unwrap();
    assert(q.0 == r3.update(0, (b + 5) as Word));
    assert(q.1 == v as Word);
    assert(pop_address(q.0, ss, PopSegment::Argument, 0) == Some((b - 2) as Word));
    let r4 = q.0.update(b - 2, v as Word);
    assert(return_ram(r3, r3[1], ss) == Some((restore_registers(r4.update(0, (b - 1) as Word), b), ret as usize)));
    let fin = restore_registers(r4.update(0, (b - 1) as Word), b);
    assert forall|a: int|
        0 <= a < MEM_SIZE && !(b <= a <= b + 5) implies #[trigger] fin[a] == arithmetic_call_ram(ram, name)[a] by {}
}

/// The operation that the compiled code runs in place of `Math.multiply` or `Math.divide`.
pub open spec fn arithmetic_op(name: Seq<char>) -> Seq<VmInstr> {
    if name == "Math.multiply"@ {
        seq![VmInstr::I32Mul, VmInstr::I32Extend16S]
    } else {
        seq![VmInstr::I32DivS, VmInstr::I32Extend16S]
    }
}

/// The case of `Math.multiply` or `Math.divide` is the ticks counter, the two top words
/// taken, the operation, its result pushed, and the jump to the next case.
proof fn lemma_arithmetic_case_code(scan: DynScan, function_name: Option<Seq<char>>, i: int, ss: Word, name: Seq<char>)
    requires
        name == "Math.multiply"@ || name == "Math.divide"@,
    ensures
        dynamic_case(scan, function_name, i, ss, Command::Call(name, 2)) == vm_tick_code() + prepare2(0).0
            + arithmetic_op(name) + drop_code(1) + next_case_code(i),
{
    lemma_arithmetic_os_function(name);
    let body = dyn_command_body(scan, function_name, i, ss, Command::Call(name, 2));
    assert(body == binary_code(0, arithmetic_op(name)));
    assert(dynamic_case(scan, function_name, i, ss, Command::Call(name, 2)) =~= vm_tick_code() + prepare2(0).0
        + arithmetic_op(name) + drop_code(1) + next_case_code(i));
}

/// The operation of `Math.multiply` or `Math.divide` on two words gives the function's
/// result where that is a word (and, for a division, the divisor is not 0).
proof fn lemma_arithmetic_op(f: VmFrame, st: Seq<i32>, name: Seq<char>, x: Word, y: Word)
    requires
        f.branch is None,
        f.stack == st.push(x as i32).push(y as i32),
        name == "Math.multiply"@ || name == "Math.divide"@,
        name == "Math.divide"@ ==> y != 0,
        i16::MIN <= arithmetic_call_result(name, x, y) <= i16::MAX,
    ensures
        frame_run(arithmetic_op(name), f) == Some(
            VmFrame { stack: st.push(arithmetic_call_result(name, x, y) as i32), ..f },
        ),
{
    lemma_arithmetic_os_function(name);
    let v = arithmetic_call_result(name, x, y);
    if name == "Math.multiply"@ {
        assert((x as i32) * (y as i32) == x * y) by (nonlinear_arith);
        assert(-0x40000000 <= x * y <= 0x40000000) by (nonlinear_arith)
            requires
                i16::MIN <= x <= i16::MAX,
                i16::MIN <= y <= i16::MAX,
        ;
        assert(i32_specs::wrapping_mul(x as i32, y as i32) == x * y);
        lemma_extended_op(f, st, x as i32, y as i32, VmInstr::I32Mul, (x * y) as i32);
    } else {
        lemma_extended_op(f, st, x as i32, y as i32, VmInstr::I32DivS, v as i32);
    }
    lemma_extend16_word(v as i32);
}

/// A case of dynamic dispatch for `Math.multiply` or `Math.divide` with two arguments,
/// which the compiled code computes in place, does what the VM's step does at and below
/// SP, where the two arguments lie above the registers and are not scaled: the result
/// replaces the first argument, SP is just above it, and the next command is the jump
/// target. The VM also leaves the frame of the call and the result in the six words from
/// the old SP on, above the new SP, which the compiled code does not write; every other
/// word is as the frame holds it.
#[verifier::spinoff_prover]
#[verifier::rlimit(50)]
pub proof fn lemma_dynamic_arithmetic_call_case_steps(
    p: ProgramSpec,
    s: RunSpec,
    scan: DynScan,
    function_name: Option<Seq<char>>,
    f: VmFrame,
    scaled: Set<int>,
    name: Seq<char>,
)
    requires
        vm_step(p, s) is Some,
        p.commands[s.current_command_index as int] == Command::Call(name, 2),
        name == "Math.multiply"@ || name == "Math.divide"@,
        7 <= s.ram[0],
        s.current_command_index + 1 <= i16::MAX,
        frame_holds_scaled(f, s.ram, scaled),
        !scaled.contains(s.ram[0] - 2),
        !scaled.contains(s.ram[0] - 1),
        f.stack.len() == 0,
        f.branch is None,
    ensures
        frame_run(
            dynamic_case(
                scan,
                function_name,
                s.current_command_index as int,
                p.files[s.current_file_index as int].static_start,
                p.commands[s.current_command_index as int],
            ),
            f,
        ) matches Some(g) && frame_holds_scaled(g, arithmetic_call_ram(s.ram, name), scaled) && g.jump_target
            == vm_step(p, s).unwrap().current_command_index && g.ticks == i32_specs::wrapping_add(1, f.ticks)
            && g.branch == Some(VmBranch::Loop) && g.stack.len() == 0,
        forall|a: int|
            0 <= a < MEM_SIZE && !(s.ram[0] <= a <= s.ram[0] + 5) ==> #[trigger] vm_step(p, s).unwrap().ram[a]
                == arithmetic_call_ram(s.ram, name)[a],
{
    let i = s.current_command_index as int;
    let ss = p.files[s.current_file_index as int].static_start;
    let ram = s.ram;
    let b = ram[0] as int;
    let x = ram[b - 2];
    let y = ram[b - 1];
    lemma_vm_step_arithmetic_call(p, s, name);
    lemma_arithmetic_case_code(scan, function_name, i, ss, name);
    let c1 = vm_tick_code();
    let c2 = c1 + prepare2(0).0;
    let c3 = c2 + arithmetic_op(name);
    let c4 = c3 + drop_code(1);
    lemma_frame_run_concat(c1, prepare2(0).0, f);
    lemma_frame_run_concat(c2, arithmetic_op(name), f);
    lemma_frame_run_concat(c3, drop_code(1), f);
    lemma_frame_run_concat(c4, next_case_code(i), f);
    lemma_tick(f);
    let f1 = VmFrame { ticks: i32_specs::wrapping_add(1, f.ticks), ..f };
    lemma_take_two(f1, ram);
    let f2 = VmFrame { stack: seq![x as i32, y as i32], sp: (f1.sp - 8) as i32, ..f1 };
    let r2 = ram.update(0, (b - 2) as Word);
    let e: Seq<i32> = Seq::empty();
    assert(frame_holds_scaled(VmFrame { stack: e, ..f2 }, r2, scaled));
    assert(seq![x as i32, y as i32] =~= e.push(x as i32).push(y as i32));
    lemma_arithmetic_op(f2, e, name, x, y);
    let v = arithmetic_call_result(name, x, y) as Word;
    let f3 = VmFrame { stack: e.push(v as i32), ..f2 };
    assert(e.push(v as i32) =~= seq![v as i32]);
    lemma_store_top(f3, r2, v, scaled);
    assert(scaled.remove(r2[0] as int) =~= scaled);
    let g = VmFrame {
        stack: Seq::empty(),
        sp: (f3.sp + 4) as i32,
        temp: v as i32,
        memory: f3.memory.update(r2[0] as int, v as i32),
        ..f3
    };
    lemma_next_case(g, i);
    assert(push_ram(r2, v).unwrap() =~= arithmetic_call_ram(ram, name));
}

// ---------------------------------------------------------------- dynamic dispatch: runs

/// The dispatch loop of dynamic dispatch, `n` rounds of it: each round runs the case of the
/// jump target from where the last one left off, which must branch back to the loop with
/// an empty operand stack; `None` where a jump target names no case or a case does not
/// branch back.
pub open spec fn dispatch_rounds(cases: Seq<Seq<VmInstr>>, f: VmFrame, n: nat) -> Option<VmFrame>
    decreases n,
{
    if n == 0 {
        Some(f)
    } else if !(0 <= f.jump_target < cases.len()) {
        None
    } else {
        match frame_run(cases[f.jump_target as int], VmFrame { branch: None, ..f }) {
            None => None,
            Some(g) => if g.branch == Some(VmBranch::Loop) && g.stack.len() == 0 {
                dispatch_rounds(cases, g, (n - 1) as nat)
            } else {
                None
            },
        }
    }
}

/// The label that a jump command names, under its function's name.
pub open spec fn jump_key(function_name: Option<Seq<char>>, c: Command) -> Seq<char> {
    label_key(function_name.unwrap(), jump_label(c))
}

/// The VM's step from `s` can be taken, and the case of its command is the compiled case
/// of that command (in the function `names` gives it, with the static segment of the
/// current file), under the conditions of the case laws: a stack command's words lie
/// where its code reads and writes them and are not scaled; a jump's label is known where
/// the VM jumps; a call goes through a frame to a function whose case and return case the
/// first pass found; a return returns from a frame as a call leaves it.
pub open spec fn step_case_ok(
    p: ProgramSpec,
    s: RunSpec,
    scan: DynScan,
    names: spec_fn(int) -> Option<Seq<char>>,
    cases: Seq<Seq<VmInstr>>,
    scaled: Set<int>,
) -> bool {
    let i = s.current_command_index as int;
    let c = p.commands[i];
    let ss = p.files[s.current_file_index as int].static_start;
    let ram = s.ram;
    &&& vm_step(p, s) is Some
    &&& i + 1 <= i16::MAX
    &&& i < cases.len()
    &&& cases[i] == dynamic_case(scan, names(i), i, ss, c)
    &&& if is_stack_command(c) {
        case_compiles(c, ram, ss) && case_unscaled(c, ram, ss, scaled)
    } else {
        match c {
            Command::Goto(_) => names(i) is Some && scan.labels.dom().contains(jump_key(names(i), c)) && (jump_target(
                p,
                s,
                jump_label(c),
            ) matches Some(t) ==> t == scan.labels[jump_key(names(i), c)]),
            Command::IfGoto(_) => names(i) is Some && scan.labels.dom().contains(jump_key(names(i), c)) && (jump_target(
                p,
                s,
                jump_label(c),
            ) matches Some(t) ==> t == scan.labels[jump_key(names(i), c)]) && 6 <= ram[0] && !scaled.contains(
                ram[0] - 1,
            ),
            Command::Call(name, n) => {
                &&& os_function(name) is None
                &&& !in_place_call(name)
                &&& 0 <= n
                &&& 5 <= ram[0]
                &&& scan.calls.dom().contains((i + 1) as usize)
                &&& scan.calls[(i + 1) as usize] == i + 1
                &&& scan.functions.dom().contains(name)
                &&& p.functions.dom().contains(name) ==> p.functions[name] < p.metadata.len() ==> scan.functions[name]
                    == p.metadata[p.functions[name] as int].command_index
            },
            Command::Return => {
                &&& 6 <= ram[0]
                &&& 10 <= ram[1]
                &&& 5 <= ram[2]
                &&& !(ram[1] - 4 <= ram[2] <= ram[1] - 1)
                &&& 0 <= ram[ram[1] - 5]
                &&& !scaled.contains(ram[0] - 1)
                &&& !scaled.contains(ram[1] - 5)
                &&& saved_registers_scaled(scaled, ram[1] - 5)
            },
            _ => false,
        }
    }
}

/// The scaled words after the step from `s`: a call adds its saved registers, a return
/// takes out argument 0, and a stack command takes out the words it writes.
pub open spec fn scaled_next(p: ProgramSpec, s: RunSpec, scaled: Set<int>) -> Set<int> {
    match p.commands[s.current_command_index as int] {
        Command::Call(_, _) => call_scaled(scaled, s.ram[0] as int),
        Command::Return => scaled.remove(s.ram[2] as int),
        c => stack_scaled(c, s.ram, p.files[s.current_file_index as int].static_start, scaled),
    }
}

/// The scaled words after `n` steps from `s`.
pub open spec fn scaled_after(p: ProgramSpec, s: RunSpec, scaled: Set<int>, n: nat) -> Set<int>
    decreases n,
{
    if n == 0 {
        scaled
    } else {
        scaled_after(p, vm_step(p, s).unwrap(), scaled_next(p, s, scaled), (n - 1) as nat)
    }
}

/// Each of the first `n` steps from `s` meets the conditions of its case law.
pub open spec fn run_cases_ok(
    p: ProgramSpec,
    s: RunSpec,
    scan: DynScan,
    names: spec_fn(int) -> Option<Seq<char>>,
    cases: Seq<Seq<VmInstr>>,
    scaled: Set<int>,
    n: nat,
) -> bool
    decreases n,
{
    if n == 0 {
        true
    } else {
        step_case_ok(p, s, scan, names, cases, scaled) && run_cases_ok(
            p,
            vm_step(p, s).unwrap(),
            scan,
            names,
            cases,
            scaled_next(p, s, scaled),
            (n - 1) as nat,
        )
    }
}

/// One round of the dispatch loop does what one step of the VM does, for every kind of
/// command that meets its case law's conditions.
#[verifier::rlimit(50)]
proof fn lemma_dispatch_round(
    p: ProgramSpec,
    s: RunSpec,
    scan: DynScan,
    names: spec_fn(int) -> Option<Seq<char>>,
    cases: Seq<Seq<VmInstr>>,
    scaled: Set<int>,
    f: VmFrame,
)
    requires
        step_case_ok(p, s, scan, names, cases, scaled),
        frame_holds_scaled(f, s.ram, scaled),
        f.stack.len() == 0,
        f.branch is None,
    ensures
        frame_run(cases[s.current_command_index as int], f) matches Some(g) && frame_holds_scaled(
            g,
            vm_step(p, s).unwrap().ram,
            scaled_next(p, s, scaled),
        ) && g.jump_target == vm_step(p, s).unwrap().current_command_index && g.branch == Some(VmBranch::Loop)
            && g.stack.len() == 0,
{
    let i = s.current_command_index as int;
    let c = p.commands[i];
    let name = names(i);
    if is_stack_command(c) {
        lemma_dynamic_case_steps(p, s, scan, name, f, scaled);
    } else {
        match c {
            Command::Goto(_) => lemma_dynamic_jump_case_steps(p, s, scan, name, f, scaled),
            Command::IfGoto(_) => lemma_dynamic_jump_case_steps(p, s, scan, name, f, scaled),
            Command::Call(callee, n) => lemma_dynamic_call_case_steps(p, s, scan, name, f, scaled, callee, n),
            Command::Return => lemma_dynamic_return_case_steps(p, s, scan, name, f, scaled),
            _ => {},
        }
    }
}

/// Dynamic dispatch runs a program as the VM does: where each of the first `n` steps of
/// the VM meets the conditions of its case law, and the frame holds the VM's RAM with the
/// current command as its jump target, `n` rounds of the dispatch loop over the cases end
/// in a frame that holds the RAM after `n` steps of the VM (with the saved registers of
/// the calls made scaled) and has the VM's next command as its jump target.
pub proof fn lemma_dispatch_runs_as_vm(
    p: ProgramSpec,
    s: RunSpec,
    scan: DynScan,
    names: spec_fn(int) -> Option<Seq<char>>,
    cases: Seq<Seq<VmInstr>>,
    scaled: Set<int>,
    f: VmFrame,
    n: nat,
)
    requires
        run_cases_ok(p, s, scan, names, cases, scaled, n),
        frame_holds_scaled(f, s.ram, scaled),
        f.stack.len() == 0,
        f.jump_target == s.current_command_index,
    ensures
        vm_steps(p, s, n) is Some,
        dispatch_rounds(cases, f, n) matches Some(g) && frame_holds_scaled(
            g,
            vm_steps(p, s, n).unwrap().ram,
            scaled_after(p, s, scaled, n),
        ) && g.jump_target == vm_steps(p, s, n).unwrap().current_command_index && g.stack.len() == 0,
    decreases n,
{
    if n > 0 {
        let i = s.current_command_index as int;
        let f0 = VmFrame { branch: None, ..f };
        lemma_dispatch_round(p, s, scan, names, cases, scaled, f0);
        let g = frame_run(cases[i], f0).unwrap();
        let s2 = vm_step(p, s).unwrap();
        lemma_dispatch_runs_as_vm(p, s2, scan, names, cases, scaled_next(p, s, scaled), g, (n - 1) as nat);
    }
}

/// The first pass of dynamic dispatch finds each call's return case at the command after
/// the call: every return case it records is its own command index, and every call among
/// the commands scanned has one.
pub proof fn lemma_dyn_scan_return_cases(flat: Seq<(Word, Command)>, n: int)
    requires
        0 <= n <= flat.len(),
        flat.len() < i32::MAX,
        dyn_scan(flat, n) is Some,
    ensures
        forall|k: usize| #[trigger] dyn_scan(flat, n).unwrap().calls.dom().contains(k) ==> dyn_scan(flat, n).unwrap().calls[k]
            == k,
        forall|i: int|
            0 <= i < n && #[trigger] flat[i].1 is Call ==> dyn_scan(flat, n).unwrap().calls.dom().contains((i + 1) as usize),
    decreases n,
{
    if n > 0 {
        lemma_dyn_scan_return_cases(flat, n - 1);
    }
}

// ---------------------------------------------------------------- static dispatch: jumps

proof fn lemma_label_target(f: VmFrame, jump: VmBranch, function_name: Option<Seq<char>>, label: Seq<char>, labels: Map<Seq<char>, i32>)
    requires
        f.branch is None,
    ensures
        frame_run(label_target_code(jump, function_name, label, labels), f) == Some(
            if jump is Loop {
                VmFrame { jump_target: labels[label_key(function_name.unwrap(), label)], ..f }
            } else {
                f
            },
        ),
{
    if jump is Loop {
        reveal_with_fuel(frame_run_from, 3);
        assert(f.stack.push(labels[label_key(function_name.unwrap(), label)]).drop_last() =~= f.stack);
    } else {
        assert(frame_run(label_target_code(jump, function_name, label, labels), f) == Some(f));
    }
}

/// Whether a jump command's step jumps: always for `goto`; for `if-goto`, where the top
/// word of the VM stack is not 0.
pub open spec fn jump_taken(c: Command, ram: Seq<Word>) -> bool {
    c is Goto || ram[ram[0] - 1] != 0
}

/// The compiled code of a jump, with `kept` values of the VM stack kept on the operand
/// stack before it, does what the VM's step does: from a frame that holds the VM's RAM
/// with the kept values, it ends in a frame that holds the RAM after the step with nothing
/// kept; where the VM jumps, the code branches as the jump was compiled (going back to the
/// dispatch loop, it makes the label's case the jump target), and where it does not, the
/// code goes on with no branch taken and the VM goes on to the next command.
#[verifier::spinoff_prover]
#[verifier::rlimit(60)]
pub proof fn lemma_static_jump_steps(
    p: ProgramSpec,
    s: RunSpec,
    kept: nat,
    jump: VmBranch,
    function_name: Option<Seq<char>>,
    labels: Map<Seq<char>, i32>,
    functions: Map<Seq<char>, i32>,
    calls: Map<usize, i32>,
    f: VmFrame, saved: Map<int, i32>,
)
    requires
        vm_step(p, s) is Some,
        p.commands[s.current_command_index as int] is Goto || p.commands[s.current_command_index as int] is IfGoto,
        p.commands[s.current_command_index as int] is IfGoto && kept == 0 ==> 6 <= s.ram[0]
            && !saved.dom().contains(s.ram[0] - 1),
        s.current_command_index < i32::MAX,
        frame_holds_kept(f, s.ram, kept, saved),
        f.branch is None,
    ensures
        ({
            let c = p.commands[s.current_command_index as int];
            let body = command_body(
                c,
                s.current_command_index as int,
                jump,
                p.files[s.current_file_index as int].static_start,
                function_name,
                labels,
                functions,
                calls,
                kept,
            );
            &&& body.1 == 0
            &&& frame_run(vm_tick_code() + body.0, f) matches Some(g) && frame_holds_kept(g, vm_step(p, s).unwrap().ram, 0, saved)
                && g.ticks == i32_specs::wrapping_add(1, f.ticks) && g.stack.len() == 0 && (if jump_taken(c, s.ram) {
                g.branch == Some(jump) && (jump is Loop ==> g.jump_target == labels[label_key(
                    function_name.unwrap(),
                    jump_label(c),
                )]) && Some(vm_step(p, s).unwrap().current_command_index) == jump_target(p, s, jump_label(c))
            } else {
                g.branch is None && vm_step(p, s).unwrap().current_command_index == s.current_command_index + 1
            })
        }),
{
    let i = s.current_command_index as int;
    let c = p.commands[i];
    let ram = s.ram;
    let label = jump_label(c);
    let ss = p.files[s.current_file_index as int].static_start;
    let body = command_body(c, i, jump, ss, function_name, labels, functions, calls, kept);
    lemma_vm_step_jump(p, s);
    lemma_tick(f);
    let f1 = VmFrame { ticks: i32_specs::wrapping_add(1, f.ticks), ..f };
    let lt = label_target_code(jump, function_name, label, labels);
    lemma_frame_run_concat(vm_tick_code(), body.0, f);
    lemma_label_target(f1, jump, function_name, label, labels);
    let f2 = frame_run(lt, f1).unwrap();
    if c is Goto {
        let br = seq![VmInstr::Br(jump)];
        assert(body.0 == drop_code(kept) + lt + br);
        lemma_frame_run_concat(drop_code(kept) + lt, br, f1);
        lemma_frame_run_concat(drop_code(kept), lt, f1);
        lemma_drop_code_stores(f1, ram, kept, saved);
        let g1 = frame_run(drop_code(kept), f1).unwrap();
        lemma_label_target(g1, jump, function_name, label, labels);
        let g2 = frame_run(lt, g1).unwrap();
        let g3 = VmFrame { branch: Some(jump), ..g2 };
        assert(frame_step(g2, br[0]) == Some(g3));
        assert(frame_run_from(br, 1, g3) == Some(g3));
        assert(frame_run(br, g2) == Some(g3));
    } else {
        let test = seq![VmInstr::I32Const(0), VmInstr::I32Ne, VmInstr::BrIf(jump)];
        let dropped: nat = if kept > 1 { 0 } else { kept };
        let mid: Seq<VmInstr> = if kept > 1 { drop_code(kept) } else { seq![] };
        assert(body.0 == lt + mid + prepare1(dropped).0 + test);
        lemma_frame_run_concat(lt + mid + prepare1(dropped).0, test, f1);
        lemma_frame_run_concat(lt + mid, prepare1(dropped).0, f1);
        lemma_frame_run_concat(lt, mid, f1);
        assert(frame_holds_kept(f2, ram, kept, saved));
        if kept > 1 {
            lemma_drop_code_stores(f2, ram, kept, saved);
        } else {
            assert(frame_run(mid, f2) == Some(f2));
        }
        let f3 = frame_run(mid, f2).unwrap();
        assert(frame_holds_kept(f3, ram, dropped, saved));
        lemma_kept_take_top(f3, ram, dropped, saved);
        let f4 = frame_run(prepare1(dropped).0, f3).unwrap();
        let v = ram[ram[0] - 1];
        let r1 = ram.update(0, (ram[0] - 1) as Word);
        let st = f4.stack.drop_last();
        assert(f4.stack == st.push(v as i32));
        let f5 = VmFrame { stack: st.push(v as i32).push(0), ..f4 };
        assert(frame_step(f4, test[0]) == Some(f5));
        let w = bool_word(v as i32 != 0);
        let f6 = VmFrame { stack: st.push(w), ..f4 };
        assert(st.push(v as i32).push(0).subrange(0, st.len() as int) =~= st);
        assert(frame_step(f5, test[1]) == Some(f6));
        let f7 = VmFrame { stack: st, branch: if w != 0 { Some(jump) } else { None }, ..f4 };
        assert(st.push(w).drop_last() =~= st);
        assert(frame_step(f6, test[2]) == Some(f7));
        assert(frame_run_from(test, 3, f7) == Some(f7));
        assert(frame_run_from(test, 2, f6) == Some(f7));
        assert(frame_run_from(test, 1, f5) == Some(f7));
        assert(frame_run(test, f4) == Some(f7));
        assert(frame_holds_kept(f7, r1, 0, saved));
    }
}

// ---------------------------------------------------------------- static dispatch: calls and returns

/// The code of a call that saves the return case and the caller's registers at SP and sets
/// the callee's registers.
pub open spec fn call_save_code(ret: i32, n: Word) -> Seq<VmInstr> {
    seq![VmInstr::LocalGet(VmLocal::Sp), VmInstr::I32Const(ret), VmInstr::I32Store(0)] + save_frame_code()
        + call_registers_code(n)
}

/// How a call goes to its function: back through the dispatch loop with the function's
/// case as the jump target, or straight out of blocks.
pub open spec fn call_jump_code(jump: VmBranch, target: i32) -> Seq<VmInstr> {
    if jump is Loop {
        seq![VmInstr::I32Const(target), VmInstr::LocalSet(VmLocal::JumpTarget), VmInstr::Br(VmBranch::Loop)]
    } else {
        seq![VmInstr::Br(jump)]
    }
}

#[verifier::spinoff_prover]
proof fn lemma_call_save_code(f: VmFrame, ret: i32, n: Word, b: int)
    requires
        f.branch is None,
        f.sp == b * 4,
        5 <= b,
        b + 4 < f.memory.len(),
        f.memory.len() <= 0x8000,
        0 <= n,
    ensures
        frame_run(call_save_code(ret, n), f) == Some(
            VmFrame {
                memory: call_memory(f, b, ret),
                arg: (f.sp - n * 4) as i32,
                sp: (f.sp + 20) as i32,
                lcl: (f.sp + 20) as i32,
                ..f
            },
        ),
{
    let a0 = seq![VmInstr::LocalGet(VmLocal::Sp), VmInstr::I32Const(ret), VmInstr::I32Store(0)];
    let s1 = seq![VmInstr::LocalGet(VmLocal::Sp), VmInstr::LocalGet(VmLocal::Lcl), VmInstr::I32Store(4)];
    let s2 = seq![VmInstr::LocalGet(VmLocal::Sp), VmInstr::LocalGet(VmLocal::Arg), VmInstr::I32Store(8)];
    let s3 = seq![VmInstr::LocalGet(VmLocal::Sp), VmInstr::LocalGet(VmLocal::This), VmInstr::I32Store(12)];
    let s4 = seq![VmInstr::LocalGet(VmLocal::Sp), VmInstr::LocalGet(VmLocal::That), VmInstr::I32Store(16)];
    assert(save_frame_code() =~= s1 + s2 + s3 + s4);
    let c1 = a0;
    let c2 = c1 + s1;
    let c3 = c2 + s2;
    let c4 = c3 + s3;
    let c5 = c4 + s4;
    assert(call_save_code(ret, n) =~= c5 + call_registers_code(n));
    let m1 = f.memory.update(b, ret);
    let h1 = VmFrame { memory: m1, ..f };
    lemma_store_at_sp(f, VmInstr::I32Const(ret), ret, 0, b);
    let m2 = m1.update(b + 1, f.lcl);
    let h2 = VmFrame { memory: m2, ..f };
    lemma_store_at_sp(h1, VmInstr::LocalGet(VmLocal::Lcl), f.lcl, 4, b + 1);
    lemma_frame_run_concat(c1, s1, f);
    let m3 = m2.update(b + 2, f.arg);
    let h3 = VmFrame { memory: m3, ..f };
    lemma_store_at_sp(h2, VmInstr::LocalGet(VmLocal::Arg), f.arg, 8, b + 2);
    lemma_frame_run_concat(c2, s2, f);
    let m4 = m3.update(b + 3, f.this);
    let h4 = VmFrame { memory: m4, ..f };
    lemma_store_at_sp(h3, VmInstr::LocalGet(VmLocal::This), f.this, 12, b + 3);
    lemma_frame_run_concat(c3, s3, f);
    let m5 = m4.update(b + 4, f.that);
    let h5 = VmFrame { memory: m5, ..f };
    lemma_store_at_sp(h4, VmInstr::LocalGet(VmLocal::That), f.that, 16, b + 4);
    lemma_frame_run_concat(c4, s4, f);
    lemma_call_registers(h5, n);
    lemma_frame_run_concat(c5, call_registers_code(n), f);
}

proof fn lemma_call_jump_code(f: VmFrame, jump: VmBranch, target: i32)
    requires
        f.branch is None,
    ensures
        frame_run(call_jump_code(jump, target), f) == Some(
            if jump is Loop {
                VmFrame { jump_target: target, branch: Some(VmBranch::Loop), ..f }
            } else {
                VmFrame { branch: Some(jump), ..f }
            },
        ),
{
    if jump is Loop {
        lemma_jump_to(f, target);
    } else {
        let g = VmFrame { branch: Some(jump), ..f };
        assert(frame_step(f, VmInstr::Br(jump)) == Some(g));
        assert(frame_run_from(seq![VmInstr::Br(jump)], 1, g) == Some(g));
    }
}

/// The saved words after a call pushes its frame at `b`: the return case, then LCL, ARG,
/// THIS and THAT as byte addresses.
pub open spec fn call_saved(saved: Map<int, i32>, ram: Seq<Word>, b: int, ret: i32) -> Map<int, i32> {
    saved.insert(b, ret).insert(b + 1, (ram[1] * 4) as i32).insert(b + 2, (ram[2] * 4) as i32).insert(
        b + 3,
        (ram[3] * 4) as i32,
    ).insert(b + 4, (ram[4] * 4) as i32)
}

/// The compiled code of a call through a frame, with `kept` values of the VM stack kept on
/// the operand stack before it, does what the VM's step does: it moves the kept values to
/// RAM, saves the return case and the caller's registers at SP, sets ARG, LCL and SP for
/// the callee and branches to the function's case as the call was compiled (going back to
/// the dispatch loop, with the function's case as the jump target). The frame it leaves
/// holds the RAM after the step with the call's frame saved.
#[verifier::spinoff_prover]
#[verifier::rlimit(60)]
pub proof fn lemma_static_call_steps(
    p: ProgramSpec,
    s: RunSpec,
    kept: nat,
    jump: VmBranch,
    function_name: Option<Seq<char>>,
    labels: Map<Seq<char>, i32>,
    functions: Map<Seq<char>, i32>,
    calls: Map<usize, i32>,
    f: VmFrame,
    saved: Map<int, i32>,
    name: Seq<char>,
    n: Word,
)
    requires
        vm_step(p, s) is Some,
        p.commands[s.current_command_index as int] == Command::Call(name, n),
        os_function(name) is None,
        !in_place_call(name),
        0 <= n,
        frame_holds_kept(f, s.ram, kept, saved),
        f.branch is None,
    ensures
        ({
            let c = p.commands[s.current_command_index as int];
            let body = command_body(
                c,
                s.current_command_index as int,
                jump,
                p.files[s.current_file_index as int].static_start,
                function_name,
                labels,
                functions,
                calls,
                kept,
            );
            let ret = calls[(s.current_command_index + 1) as usize];
            &&& body.1 == 0
            &&& frame_run(vm_tick_code() + body.0, f) matches Some(g) && frame_holds_kept(
                g,
                vm_step(p, s).unwrap().ram,
                0,
                call_saved(saved, s.ram, s.ram[0] as int, ret),
            ) && g.ticks == i32_specs::wrapping_add(1, f.ticks) && g.stack.len() == 0 && g.branch == Some(jump) && (
            jump is Loop ==> g.jump_target == functions[name])
            &&& p.functions.dom().contains(name)
            &&& p.functions[name] < p.metadata.len()
            &&& vm_step(p, s).unwrap().current_command_index == p.metadata[p.functions[name] as int].command_index
        }),
{
    let i = s.current_command_index as int;
    let c = p.commands[i];
    let ram = s.ram;
    let ss = p.files[s.current_file_index as int].static_start;
    let body = command_body(c, i, jump, ss, function_name, labels, functions, calls, kept);
    let ret = calls[(i + 1) as usize];
    assert(body == call_code(name, n, i, jump, functions, calls, kept));
    assert(body.0 =~= drop_code(kept) + call_save_code(ret, n) + call_jump_code(jump, functions[name]));
    lemma_tick(f);
    let f1 = VmFrame { ticks: i32_specs::wrapping_add(1, f.ticks), ..f };
    lemma_frame_run_concat(vm_tick_code(), body.0, f);
    lemma_frame_run_concat(drop_code(kept) + call_save_code(ret, n), call_jump_code(jump, functions[name]), f1);
    lemma_frame_run_concat(drop_code(kept), call_save_code(ret, n), f1);
    lemma_drop_code_stores(f1, ram, kept, saved);
    let g1 = frame_run(drop_code(kept), f1).unwrap();
    let r1 = ram;
    let b = ram[0] as int;
    lemma_vm_step_call_kept(p, s, name, n);
    lemma_call_save_code(g1, ret, n, b);
    let g2 = VmFrame {
        memory: call_memory(g1, b, ret),
        arg: (g1.sp - n * 4) as i32,
        sp: (g1.sp + 20) as i32,
        lcl: (g1.sp + 20) as i32,
        ..g1
    };
    lemma_call_jump_code(g2, jump, functions[name]);
    let g = frame_run(call_jump_code(jump, functions[name]), g2).unwrap();
    let r = vm_step(p, s).unwrap().ram;
    let sv = call_saved(saved, ram, b, ret);
    assert(r == call_ram(ram, ((i + 1) as usize) as Word, n));
    assert forall|a: int| 5 <= a < r[0] implies #[trigger] g.memory[a] == held_word(sv, r, a) by {
        if a < b {
            assert(g.memory[a] == g1.memory[a]);
            assert(r[a] == ram[a]);
        }
    }
    assert forall|a: int| #[trigger] sv.dom().contains(a) implies 5 <= a < r[0] by {
        if !(b <= a <= b + 4) {
            assert(saved.dom().contains(a));
        }
    }
}

/// The VM's step of a call through a frame, where the stack lies above the registers.
proof fn lemma_vm_step_call_kept(p: ProgramSpec, s: RunSpec, name: Seq<char>, n: Word)
    requires
        vm_step(p, s) is Some,
        p.commands[s.current_command_index as int] == Command::Call(name, n),
        os_function(name) is None,
        s.ram.len() == MEM_SIZE,
        5 <= s.ram[0],
    ensures
        s.ram[0] + 5 <= i16::MAX,
        i16::MIN <= s.ram[0] - n <= i16::MAX,
        p.functions.dom().contains(name),
        p.functions[name] < p.metadata.len(),
        s.current_command_index < p.commands.len(),
        vm_step(p, s).unwrap().ram == call_ram(s.ram, ((s.current_command_index + 1) as usize) as Word, n),
        vm_step(p, s).unwrap().current_command_index == p.metadata[p.functions[name] as int].command_index,
{
    let ret = (s.current_command_index + 1) as usize;
    lemma_push_frame(s.ram, ret as Word);
    let r = push_frame(s.ram, ret as Word).unwrap();
    let r2 = r.update(1, r[0]).update(2, (s.ram[0] - n) as Word);
    assert(os_call(name, r2, s.os) == Some(None::<(Seq<Word>, crate::os::OsState)>));
    assert(r2 =~= call_ram(s.ram, ret as Word, n));
}

/// The saved words that remain once a return has set SP just above argument `argw`: those
/// below it.
pub open spec fn return_saved(saved: Map<int, i32>, argw: int) -> Map<int, i32> {
    saved.restrict(Set::new(|a: int| a < argw))
}

/// The frame a return returns from was saved by the call as the compiled code saves it:
/// the return case at `base`, and the caller's LCL, ARG, THIS and THAT as byte addresses
/// above it, as the RAM holds them.
pub open spec fn frame_saved(saved: Map<int, i32>, ram: Seq<Word>, base: int) -> bool {
    &&& saved.dom().contains(base)
    &&& forall|k: int| 1 <= k <= 4 ==> #[trigger] saved.dom().contains(base + k) && saved[base + k] == (ram[base + k] * 4) as i32
}

/// The compiled code of a return, with `kept` values of the VM stack kept on the operand
/// stack before it, does what the VM's step does, where the frame returned from was saved
/// by its call and argument 0 lies at or below it: it stores the top of the stack at
/// argument 0, sets SP just above it, restores the caller's registers and branches back to
/// the dispatch loop with the saved return case as the jump target. The frame it leaves
/// (its operand stack, which the branch leaves, set aside) holds the RAM after the step,
/// with the saved words below argument 0.
#[verifier::spinoff_prover]
#[verifier::rlimit(60)]
pub proof fn lemma_static_return_steps(
    p: ProgramSpec,
    s: RunSpec,
    kept: nat,
    function_name: Option<Seq<char>>,
    labels: Map<Seq<char>, i32>,
    functions: Map<Seq<char>, i32>,
    calls: Map<usize, i32>,
    f: VmFrame,
    saved: Map<int, i32>,
)
    requires
        vm_step(p, s) is Some,
        p.commands[s.current_command_index as int] == Command::Return,
        frame_holds_kept(f, s.ram, kept, saved),
        f.branch is None,
        kept == 0 ==> 6 <= s.ram[0] && !saved.dom().contains(s.ram[0] - 1),
        10 <= s.ram[1],
        frame_saved(saved, s.ram, s.ram[1] - 5),
        5 <= s.ram[2] <= s.ram[1] - 5,
        0 <= s.ram[s.ram[1] - 5],
    ensures
        ({
            let c = p.commands[s.current_command_index as int];
            let body = command_body(
                c,
                s.current_command_index as int,
                VmBranch::Loop,
                p.files[s.current_file_index as int].static_start,
                function_name,
                labels,
                functions,
                calls,
                kept,
            );
            &&& frame_run(vm_tick_code() + body.0, f) matches Some(g) && frame_holds_kept(
                VmFrame { stack: Seq::empty(), ..g },
                vm_step(p, s).unwrap().ram,
                0,
                return_saved(saved, s.ram[2] as int),
            ) && g.ticks == i32_specs::wrapping_add(1, f.ticks) && g.branch == Some(VmBranch::Loop) && g.jump_target
                == saved[s.ram[1] - 5]
            &&& vm_step(p, s).unwrap().current_command_index == s.ram[s.ram[1] - 5]
        }),
{
    let i = s.current_command_index as int;
    let c = p.commands[i];
    let ram = s.ram;
    let ss = p.files[s.current_file_index as int].static_start;
    let body = command_body(c, i, VmBranch::Loop, ss, function_name, labels, functions, calls, kept);
    let base = ram[1] - 5;
    let argw = ram[2] as int;
    let v = ram[ram[0] - 1];
    assert(saved.dom().contains(base + 1) && saved.dom().contains(base + 4));
    assert(body.0 =~= prepare1(kept).0 + return_head_code() + restore_code(VmBranch::Loop));
    lemma_vm_step_return(p, s);
    lemma_tick(f);
    let f1 = VmFrame { ticks: i32_specs::wrapping_add(1, f.ticks), ..f };
    lemma_frame_run_concat(vm_tick_code(), body.0, f);
    lemma_frame_run_concat(prepare1(kept).0 + return_head_code(), restore_code(VmBranch::Loop), f1);
    lemma_frame_run_concat(prepare1(kept).0, return_head_code(), f1);
    lemma_kept_take_top(f1, ram, kept, saved);
    let g1 = frame_run(prepare1(kept).0, f1).unwrap();
    let st = g1.stack.drop_last();
    assert(g1.stack =~= st.push(v as i32));
    let r1 = ram.update(0, (ram[0] - 1) as Word);
    let k1 = prepare1(kept).1;
    assert(frame_holds_kept(VmFrame { stack: st, ..g1 }, r1, k1, saved));
    lemma_return_head(g1, st, v as i32, base, argw);
    let f3 = VmFrame {
        stack: st,
        temp2: v as i32,
        temp: (base * 4) as i32,
        jump_target: g1.memory[base],
        memory: g1.memory.update(argw, v as i32),
        sp: (g1.arg + 4) as i32,
        ..g1
    };
    lemma_restore_code(f3, base);
    let g = VmFrame {
        lcl: f3.memory[base + 1],
        arg: f3.memory[base + 2],
        this: f3.memory[base + 3],
        that: f3.memory[base + 4],
        branch: Some(VmBranch::Loop),
        ..f3
    };
    assert(g1.memory[base] == saved[base]);
    assert(f3.memory[base + 1] == (ram[base + 1] * 4) as i32);
    assert(f3.memory[base + 2] == (ram[base + 2] * 4) as i32);
    assert(f3.memory[base + 3] == (ram[base + 3] * 4) as i32);
    assert(f3.memory[base + 4] == (ram[base + 4] * 4) as i32);
    let r = returned_ram(ram, base, v);
    let sv = return_saved(saved, argw);
    let h = VmFrame { stack: Seq::empty(), ..g };
    assert forall|a: int| 5 <= a < r[0] implies #[trigger] h.memory[a] == held_word(sv, r, a) by {
        if a < argw {
            assert(h.memory[a] == g1.memory[a]);
            assert(r[a] == ram[a]);
            assert(held_word(saved, r1, a) == held_word(sv, r, a));
        }
    }
    assert forall|a: int| #[trigger] sv.dom().contains(a) implies 5 <= a < r[0] by {
        assert(saved.dom().contains(a));
    }
}

/// A frame holds any RAM that agrees with one it holds below SP.
proof fn lemma_kept_agree(g: VmFrame, r: Seq<Word>, r2: Seq<Word>, kept: nat, saved: Map<int, i32>)
    requires
        frame_holds_kept(g, r, kept, saved),
        r2.len() == r.len(),
        forall|a: int| 0 <= a < r[0] ==> #[trigger] r2[a] == r[a],
    ensures
        frame_holds_kept(g, r2, kept, saved),
{
    assert(r2[0] == r[0] && r2[1] == r[1] && r2[2] == r[2] && r2[3] == r[3] && r2[4] == r[4]);
    assert forall|j: int| 0 <= j < kept implies #[trigger] g.stack[j] == r2[r2[0] - kept + j] as i32 by {
        assert(r2[r2[0] - kept + j] == r[r[0] - kept + j]);
    }
    assert forall|a: int| 5 <= a < r2[0] - kept implies #[trigger] g.memory[a] == held_word(saved, r2, a) by {
        assert(r2[a] == r[a]);
    }
}

/// The compiled code of `Math.multiply` or `Math.divide` with two arguments, which the
/// compiled code computes in place, with `kept` values of the VM stack kept on the operand
/// stack before it, does what the VM's step does below SP: the result replaces the two
/// arguments on the VM stack, kept on the operand stack, and the VM goes on to the next
/// command. (Above SP the VM leaves the call's frame, which is not compared.)
#[verifier::spinoff_prover]
#[verifier::rlimit(60)]
pub proof fn lemma_static_arithmetic_call_steps(
    p: ProgramSpec,
    s: RunSpec,
    kept: nat,
    jump: VmBranch,
    function_name: Option<Seq<char>>,
    labels: Map<Seq<char>, i32>,
    functions: Map<Seq<char>, i32>,
    calls: Map<usize, i32>,
    f: VmFrame,
    saved: Map<int, i32>,
    name: Seq<char>,
)
    requires
        vm_step(p, s) is Some,
        p.commands[s.current_command_index as int] == Command::Call(name, 2),
        name == "Math.multiply"@ || name == "Math.divide"@,
        s.current_command_index + 1 <= i16::MAX,
        frame_holds_kept(f, s.ram, kept, saved),
        f.branch is None,
        kept <= 1 ==> 7 <= s.ram[0] && !saved.dom().contains(s.ram[0] - 2),
        kept == 0 ==> !saved.dom().contains(s.ram[0] - 1),
    ensures
        ({
            let body = command_body(
                p.commands[s.current_command_index as int],
                s.current_command_index as int,
                jump,
                p.files[s.current_file_index as int].static_start,
                function_name,
                labels,
                functions,
                calls,
                kept,
            );
            &&& frame_run(vm_tick_code() + body.0, f) matches Some(g) && frame_holds_kept(
                g,
                vm_step(p, s).unwrap().ram,
                body.1,
                saved,
            ) && g.ticks == i32_specs::wrapping_add(1, f.ticks) && g.branch is None && g.jump_target == f.jump_target
            &&& vm_step(p, s).unwrap().current_command_index == s.current_command_index + 1
        }),
{
    let i = s.current_command_index as int;
    let c = p.commands[i];
    let ram = s.ram;
    let ss = p.files[s.current_file_index as int].static_start;
    let body = command_body(c, i, jump, ss, function_name, labels, functions, calls, kept);
    lemma_arithmetic_os_function(name);
    assert(body == binary_code(kept, arithmetic_op(name)));
    lemma_vm_step_arithmetic_call(p, s, name);
    let b = ram[0] as int;
    let x = ram[b - 2];
    let y = ram[b - 1];
    let r2 = ram.update(0, (b - 2) as Word);
    let k2 = prepare2(kept).1;
    lemma_tick(f);
    let f1 = VmFrame { ticks: i32_specs::wrapping_add(1, f.ticks), ..f };
    lemma_frame_run_concat(vm_tick_code(), body.0, f);
    lemma_frame_run_concat(prepare2(kept).0, arithmetic_op(name), f1);
    lemma_kept_take_two(f1, ram, kept, saved);
    let g1 = frame_run(prepare2(kept).0, f1).unwrap();
    let st = g1.stack.drop_last().drop_last();
    lemma_arithmetic_op(g1, st, name, x, y);
    let v = arithmetic_call_result(name, x, y) as Word;
    let g2 = frame_run(arithmetic_op(name), g1).unwrap();
    assert(VmFrame { stack: st, ..g2 } == VmFrame { stack: st, ..g1 });
    lemma_kept_push(g2, st, r2, k2, v, saved);
    assert(push_ram(r2, v).unwrap() =~= arithmetic_call_ram(ram, name));
    lemma_kept_agree(g2, arithmetic_call_ram(ram, name), vm_step(p, s).unwrap().ram, k2 + 1, saved);
}

/// The RAM after a call of `Screen.clearScreen`, as far as it lies at and below SP: the
/// screen cleared and its result 0 pushed. (The VM also leaves the call's frame above SP.)
pub open spec fn clear_call_ram(ram: Seq<Word>) -> Seq<Word> {
    let b = ram[0] as int;
    clear_screen_spec(ram).update(b, 0 as Word).update(0, (b + 1) as Word)
}

/// The operating-system function that runs `Screen.clearScreen`.
proof fn lemma_clear_screen_os_function()
    ensures
        os_function("Screen.clearScreen"@) == Some(OsFunction::ScreenClearScreen),
        in_place_call("Screen.clearScreen"@),
        "Screen.clearScreen"@ != "Math.multiply"@,
        "Screen.clearScreen"@ != "Math.divide"@,
{
    reveal_strlit("Math.init");
    reveal_strlit("Math.multiply");
    reveal_strlit("Math.divide");
    reveal_strlit("Math.min");
    reveal_strlit("Math.max");
    reveal_strlit("Math.sqrt");
    reveal_strlit("Math.abs");
    reveal_strlit("Array.new");
    reveal_strlit("Array.dispose");
    reveal_strlit("Keyboard.keyPressed");
    reveal_strlit("Screen.init");
    reveal_strlit("Screen.clearScreen");
    let c = "Screen.clearScreen"@;
    assert(c.len() == 18);
    assert(c != "Math.init"@ && c != "Math.multiply"@ && c != "Math.divide"@ && c != "Math.min"@ && c != "Math.max"@);
    assert(c != "Math.sqrt"@ && c != "Math.abs"@ && c != "Array.new"@ && c != "Array.dispose"@);
    assert(c != "Keyboard.keyPressed"@ && c != "Screen.init"@);
}

/// For a call of `Screen.clearScreen` with the stack below the screen, the VM's step
/// (which pushes a frame, clears the screen and returns 0) leaves the RAM of
/// `clear_call_ram` at and below SP, and goes on to the next command.
#[verifier::spinoff_prover]
#[verifier::rlimit(50)]
proof fn lemma_vm_step_clear_screen(p: ProgramSpec, s: RunSpec)
    requires
        vm_step(p, s) is Some,
        p.commands[s.current_command_index as int] == Command::Call("Screen.clearScreen"@, 0),
        s.ram.len() == MEM_SIZE,
        5 <= s.ram[0],
        s.ram[0] + 6 < 16384,
        s.current_command_index + 1 <= i16::MAX,
    ensures
        vm_step(p, s).unwrap().current_command_index == s.current_command_index + 1,
        vm_step(p, s).unwrap().ram.len() == MEM_SIZE,
        forall|a: int|
            0 <= a < MEM_SIZE && !(s.ram[0] < a <= s.ram[0] + 5) ==> #[trigger] vm_step(p, s).unwrap().ram[a]
                == clear_call_ram(s.ram)[a],
{
    lemma_clear_screen_os_function();
    let name = "Screen.clearScreen"@;
    let ram = s.ram;
    let b = ram[0] as int;
    let i = s.current_command_index as int;
    let ss = p.files[s.current_file_index as int].static_start;
    let ret = (i + 1) as Word;
    lemma_push_frame(ram, ret);
    let r = push_frame(ram, ret).unwrap();
    let r2 = r.update(1, r[0]).update(2, b as Word);
    let f = os_function(name).unwrap();
    let e = os_effect(f, r2, s.os).unwrap();
    let cs = clear_screen_spec(r2);
    assert(e.0 == cs && e.2 == 0);
    let r3 = cs.update(b + 5, 0 as Word).update(0, (b + 6) as Word);
    assert(push_ram(cs, 0 as Word) == Some(r3));
    assert(os_call(name, r2, s.os) == Some(Some((r3, e.1))));
    let q = pop_ram(r3).unwrap();
    assert(q.0 == r3.update(0, (b + 5) as Word));
    assert(q.1 == 0);
    assert(pop_address(q.0, ss, PopSegment::Argument, 0) == Some(b as Word));
    let r4 = q.0.update(b, 0 as Word);
    assert(return_ram(r3, r3[1], ss) == Some((restore_registers(r4.update(0, (b + 1) as Word), b), ret as usize)));
    let fin = restore_registers(r4.update(0, (b + 1) as Word), b);
    assert forall|a: int| 0 <= a < MEM_SIZE && !(b < a <= b + 5) implies #[trigger] fin[a] == clear_call_ram(ram)[a] by {}
}

/// The code that the compiled code runs in place of `Screen.clearScreen`: fill the screen
/// with 0 and keep 0 as the result.
pub open spec fn clear_screen_code() -> Seq<VmInstr> {
    seq![
        VmInstr::I32Const(65536),
        VmInstr::I32Const(0),
        VmInstr::I32Const(32768),
        VmInstr::MemoryFill,
        VmInstr::I32Const(0),
    ]
}

proof fn lemma_clear_screen_body(
    c: Command,
    i: int,
    jump: VmBranch,
    ss: Word,
    function_name: Option<Seq<char>>,
    labels: Map<Seq<char>, i32>,
    functions: Map<Seq<char>, i32>,
    calls: Map<usize, i32>,
    kept: nat,
)
    requires
        c == Command::Call("Screen.clearScreen"@, 0),
    ensures
        command_body(c, i, jump, ss, function_name, labels, functions, calls, kept) == (clear_screen_code(), kept + 1),
{
    lemma_clear_screen_os_function();
}

proof fn lemma_clear_screen_code(f: VmFrame)
    requires
        f.branch is None,
        f.memory.len() == MEM_SIZE,
    ensures
        frame_run(clear_screen_code(), f) == Some(
            VmFrame { stack: f.stack.push(0), memory: filled(f.memory, 16384, 24576, 0), ..f },
        ),
{
    let code = clear_screen_code();
    let st = f.stack;
    let n = st.len() as int;
    assert(fill_word(0) == 0);
    let s3 = st.push(65536).push(0).push(32768);
    let f1 = VmFrame { stack: st.push(65536), ..f };
    let f2 = VmFrame { stack: st.push(65536).push(0), ..f };
    let f3 = VmFrame { stack: s3, ..f };
    assert(s3[n] == 65536 && s3[n + 1] == 0 && s3[n + 2] == 32768);
    assert(s3.subrange(0, n) =~= st);
    let m = filled(f.memory, 16384, 24576, 0);
    let f4 = VmFrame { stack: st, memory: m, ..f };
    let f5 = VmFrame { stack: st.push(0), memory: m, ..f };
    assert(frame_step(f, code[0]) == Some(f1));
    assert(frame_step(f1, code[1]) == Some(f2));
    assert(frame_step(f2, code[2]) == Some(f3));
    assert(frame_step(f3, code[3]) == Some(f4));
    assert(frame_step(f4, code[4]) == Some(f5));
    assert(frame_run_from(code, 5, f5) == Some(f5));
    assert(frame_run_from(code, 4, f4) == Some(f5));
    assert(frame_run_from(code, 3, f3) == Some(f5));
    assert(frame_run_from(code, 2, f2) == Some(f5));
    assert(frame_run_from(code, 1, f1) == Some(f5));
    assert(frame_run_from(code, 0, f) == Some(f5));
}

/// The compiled code of `Screen.clearScreen`, which the compiled code runs in place, with
/// `kept` values of the VM stack kept on the operand stack before it, does what the VM's
/// step does below SP where the stack lies below the screen: the screen is cleared, 0 is
/// kept on the operand stack as the result, and the VM goes on to the next command.
#[verifier::spinoff_prover]
#[verifier::rlimit(60)]
pub proof fn lemma_static_clear_screen_steps(
    p: ProgramSpec,
    s: RunSpec,
    kept: nat,
    jump: VmBranch,
    function_name: Option<Seq<char>>,
    labels: Map<Seq<char>, i32>,
    functions: Map<Seq<char>, i32>,
    calls: Map<usize, i32>,
    f: VmFrame,
    saved: Map<int, i32>,
)
    requires
        vm_step(p, s) is Some,
        p.commands[s.current_command_index as int] == Command::Call("Screen.clearScreen"@, 0),
        s.current_command_index + 1 <= i16::MAX,
        s.ram[0] + 6 < 16384,
        frame_holds_kept(f, s.ram, kept, saved),
        f.branch is None,
    ensures
        ({
            let body = command_body(
                p.commands[s.current_command_index as int],
                s.current_command_index as int,
                jump,
                p.files[s.current_file_index as int].static_start,
                function_name,
                labels,
                functions,
                calls,
                kept,
            );
            &&& frame_run(vm_tick_code() + body.0, f) matches Some(g) && frame_holds_kept(
                g,
                vm_step(p, s).unwrap().ram,
                body.1,
                saved,
            ) && g.ticks == i32_specs::wrapping_add(1, f.ticks) && g.branch is None && g.jump_target == f.jump_target
            &&& vm_step(p, s).unwrap().current_command_index == s.current_command_index + 1
        }),
{
    let i = s.current_command_index as int;
    let c = p.commands[i];
    let ram = s.ram;
    let ss = p.files[s.current_file_index as int].static_start;
    lemma_clear_screen_body(c, i, jump, ss, function_name, labels, functions, calls, kept);
    let code = clear_screen_code();
    lemma_vm_step_clear_screen(p, s);
    lemma_tick(f);
    let f1 = VmFrame { ticks: i32_specs::wrapping_add(1, f.ticks), ..f };
    lemma_frame_run_concat(vm_tick_code(), code, f);
    lemma_clear_screen_code(f1);
    let g = VmFrame { stack: f1.stack.push(0), memory: filled(f1.memory, 16384, 24576, 0), ..f1 };
    let b = ram[0] as int;
    let r = clear_call_ram(ram);
    assert forall|j: int| 0 <= j < kept + 1 implies #[trigger] g.stack[j] == r[r[0] - (kept + 1) + j] as i32 by {
        if j < kept {
            assert(g.stack[j] == f.stack[j]);
        }
    }
    assert forall|a: int| 5 <= a < r[0] - (kept + 1) implies #[trigger] g.memory[a] == held_word(saved, r, a) by {
        assert(r[a] == ram[a]);
    }
    assert(frame_holds_kept(g, r, kept + 1, saved));
    lemma_kept_agree(g, r, vm_step(p, s).unwrap().ram, kept + 1, saved);
}

/// The RAM after a call of `Memory.init`, as far as it lies at and below SP: its result 0
/// pushed. (The VM also leaves the call's frame above SP.)
pub open spec fn init_call_ram(ram: Seq<Word>) -> Seq<Word> {
    let b = ram[0] as int;
    ram.update(b, 0 as Word).update(0, (b + 1) as Word)
}

/// The operating-system function that runs `Memory.init`: one that does nothing.
proof fn lemma_memory_init_os_function()
    ensures
        os_function("Memory.init"@) == Some(OsFunction::Noop),
        in_place_call("Memory.init"@),
        "Memory.init"@ != "Math.multiply"@,
        "Memory.init"@ != "Math.divide"@,
        "Memory.init"@ != "Screen.clearScreen"@,
        "Memory.init"@ != "Screen.setColor"@,
        "Memory.init"@ != "Screen.drawPixel"@,
{
    reveal_strlit("Math.init");
    reveal_strlit("Math.multiply");
    reveal_strlit("Math.divide");
    reveal_strlit("Math.min");
    reveal_strlit("Math.max");
    reveal_strlit("Math.sqrt");
    reveal_strlit("Math.abs");
    reveal_strlit("Array.new");
    reveal_strlit("Array.dispose");
    reveal_strlit("Keyboard.keyPressed");
    reveal_strlit("Screen.init");
    reveal_strlit("Screen.clearScreen");
    reveal_strlit("Screen.setColor");
    reveal_strlit("Screen.drawPixel");
    reveal_strlit("Screen.drawLine");
    reveal_strlit("Screen.drawRectangle");
    reveal_strlit("Screen.drawCircle");
    reveal_strlit("Memory.init");
    let c = "Memory.init"@;
    assert(c.len() == 11 && c[0] == 'M' && c[1] == 'e');
    assert("Math.divide"@[1] == 'a');
    assert("Screen.init"@[0] == 'S');
    assert(c != "Math.init"@ && c != "Math.multiply"@ && c != "Math.divide"@ && c != "Math.min"@ && c != "Math.max"@);
    assert(c != "Math.sqrt"@ && c != "Math.abs"@ && c != "Array.new"@ && c != "Array.dispose"@);
    assert(c != "Keyboard.keyPressed"@ && c != "Screen.init"@ && c != "Screen.clearScreen"@);
    assert(c != "Screen.setColor"@ && c != "Screen.drawPixel"@ && c != "Screen.drawLine"@);
    assert(c != "Screen.drawRectangle"@ && c != "Screen.drawCircle"@);
}

/// For a call of `Memory.init`, the VM's step (which pushes a frame, runs the function,
/// which does nothing, and returns 0) leaves the RAM of `init_call_ram` at and below SP,
/// and goes on to the next command.
#[verifier::spinoff_prover]
#[verifier::rlimit(50)]
proof fn lemma_vm_step_memory_init(p: ProgramSpec, s: RunSpec)
    requires
        vm_step(p, s) is Some,
        p.commands[s.current_command_index as int] == Command::Call("Memory.init"@, 0),
        s.ram.len() == MEM_SIZE,
        5 <= s.ram[0],
        s.ram[0] + 6 < 16384,
        s.current_command_index + 1 <= i16::MAX,
    ensures
        vm_step(p, s).unwrap().current_command_index == s.current_command_index + 1,
        vm_step(p, s).unwrap().ram.len() == MEM_SIZE,
        forall|a: int|
            0 <= a < MEM_SIZE && !(s.ram[0] < a <= s.ram[0] + 5) ==> #[trigger] vm_step(p, s).unwrap().ram[a]
                == init_call_ram(s.ram)[a],
{
    lemma_memory_init_os_function();
    let name = "Memory.init"@;
    let ram = s.ram;
    let b = ram[0] as int;
    let i = s.current_command_index as int;
    let ss = p.files[s.current_file_index as int].static_start;
    let ret = (i + 1) as Word;
    lemma_push_frame(ram, ret);
    let r = push_frame(ram, ret).unwrap();
    let r2 = r.update(1, r[0]).update(2, b as Word);
    let f = os_function(name).unwrap();
    let e = os_effect(f, r2, s.os).unwrap();
    assert(e.0 == r2 && e.2 == 0);
    let r3 = r2.update(b + 5, 0 as Word).update(0, (b + 6) as Word);
    assert(push_ram(r2, 0 as Word) == Some(r3));
    assert(os_call(name, r2, s.os) == Some(Some((r3, e.1))));
    let q = pop_ram(r3).unwrap();
    assert(q.0 == r3.update(0, (b + 5) as Word));
    assert(q.1 == 0);
    assert(pop_address(q.0, ss, PopSegment::Argument, 0) == Some(b as Word));
    let r4 = q.0.update(b, 0 as Word);
    assert(return_ram(r3, r3[1], ss) == Some((restore_registers(r4.update(0, (b + 1) as Word), b), ret as usize)));
    let fin = restore_registers(r4.update(0, (b + 1) as Word), b);
    assert forall|a: int| 0 <= a < MEM_SIZE && !(b < a <= b + 5) implies #[trigger] fin[a] == init_call_ram(ram)[a] by {}
}

proof fn lemma_memory_init_body(
    c: Command,
    i: int,
    jump: VmBranch,
    ss: Word,
    function_name: Option<Seq<char>>,
    labels: Map<Seq<char>, i32>,
    functions: Map<Seq<char>, i32>,
    calls: Map<usize, i32>,
    kept: nat,
)
    requires
        c == Command::Call("Memory.init"@, 0),
    ensures
        command_body(c, i, jump, ss, function_name, labels, functions, calls, kept) == (memory_init_code(), kept + 1),
{
    lemma_memory_init_os_function();
}

/// The heap words the code of `Memory.init` writes.
pub open spec fn heap_init_memory(memory: Seq<i32>) -> Seq<i32> {
    memory.update(2048, 8196i32).update(2049, 14334i32).update(2050, 0i32)
}

proof fn lemma_memory_init_code(f: VmFrame)
    requires
        f.branch is None,
        f.memory.len() == MEM_SIZE,
    ensures
        frame_run(memory_init_code(), f) == Some(VmFrame { stack: f.stack.push(0), memory: heap_init_memory(f.memory), ..f }),
{
    let code = memory_init_code();
    let st = f.stack;
    let m1 = f.memory.update(2048, 8196i32);
    let m2 = m1.update(2049, 14334i32);
    let m3 = m2.update(2050, 0i32);
    let f1 = VmFrame { stack: st.push(8192i32), ..f };
    let f2 = VmFrame { stack: st.push(8192i32).push(8196i32), ..f };
    let f3 = VmFrame { stack: st, memory: m1, ..f };
    let f4 = VmFrame { stack: st.push(8196i32), memory: m1, ..f };
    let f5 = VmFrame { stack: st.push(8196i32).push(14334i32), memory: m1, ..f };
    let f6 = VmFrame { stack: st, memory: m2, ..f };
    let f7 = VmFrame { stack: st.push(8200i32), memory: m2, ..f };
    let f8 = VmFrame { stack: st.push(8200i32).push(0i32), memory: m2, ..f };
    let f9 = VmFrame { stack: st, memory: m3, ..f };
    let f10 = VmFrame { stack: st.push(0), memory: m3, ..f };
    assert(st.push(8192i32).push(8196i32).subrange(0, st.len() as int) =~= st);
    assert(st.push(8196i32).push(14334i32).subrange(0, st.len() as int) =~= st);
    assert(st.push(8200i32).push(0i32).subrange(0, st.len() as int) =~= st);
    assert(frame_step(f, code[0]) == Some(f1));
    assert(frame_step(f1, code[1]) == Some(f2));
    assert(frame_step(f2, code[2]) == Some(f3));
    assert(frame_step(f3, code[3]) == Some(f4));
    assert(frame_step(f4, code[4]) == Some(f5));
    assert(frame_step(f5, code[5]) == Some(f6));
    assert(frame_step(f6, code[6]) == Some(f7));
    assert(frame_step(f7, code[7]) == Some(f8));
    assert(frame_step(f8, code[8]) == Some(f9));
    assert(frame_step(f9, code[9]) == Some(f10));
    assert(frame_run_from(code, 10, f10) == Some(f10));
    assert(frame_run_from(code, 9, f9) == Some(f10));
    assert(frame_run_from(code, 8, f8) == Some(f10));
    assert(frame_run_from(code, 7, f7) == Some(f10));
    assert(frame_run_from(code, 6, f6) == Some(f10));
    assert(frame_run_from(code, 5, f5) == Some(f10));
    assert(frame_run_from(code, 4, f4) == Some(f10));
    assert(frame_run_from(code, 3, f3) == Some(f10));
    assert(frame_run_from(code, 2, f2) == Some(f10));
    assert(frame_run_from(code, 1, f1) == Some(f10));
    assert(frame_run_from(code, 0, f) == Some(f10));
}

/// The compiled code of `Memory.init`, which the compiled code runs in place, with `kept`
/// values of the VM stack kept on the operand stack before it, does what the VM's step
/// does below SP where the stack lies below the heap: 0 is kept on the operand stack as
/// the result (the heap words the code writes lie above SP), and the VM goes on to the
/// next command.
#[verifier::spinoff_prover]
#[verifier::rlimit(60)]
pub proof fn lemma_static_memory_init_steps(
    p: ProgramSpec,
    s: RunSpec,
    kept: nat,
    jump: VmBranch,
    function_name: Option<Seq<char>>,
    labels: Map<Seq<char>, i32>,
    functions: Map<Seq<char>, i32>,
    calls: Map<usize, i32>,
    f: VmFrame,
    saved: Map<int, i32>,
)
    requires
        vm_step(p, s) is Some,
        p.commands[s.current_command_index as int] == Command::Call("Memory.init"@, 0),
        s.current_command_index + 1 <= i16::MAX,
        s.ram[0] + 6 < 2048,
        frame_holds_kept(f, s.ram, kept, saved),
        f.branch is None,
    ensures
        ({
            let body = command_body(
                p.commands[s.current_command_index as int],
                s.current_command_index as int,
                jump,
                p.files[s.current_file_index as int].static_start,
                function_name,
                labels,
                functions,
                calls,
                kept,
            );
            &&& frame_run(vm_tick_code() + body.0, f) matches Some(g) && frame_holds_kept(
                g,
                vm_step(p, s).unwrap().ram,
                body.1,
                saved,
            ) && g.ticks == i32_specs::wrapping_add(1, f.ticks) && g.branch is None && g.jump_target == f.jump_target
            &&& vm_step(p, s).unwrap().current_command_index == s.current_command_index + 1
        }),
{
    let i = s.current_command_index as int;
    let c = p.commands[i];
    let ram = s.ram;
    let ss = p.files[s.current_file_index as int].static_start;
    lemma_memory_init_body(c, i, jump, ss, function_name, labels, functions, calls, kept);
    let code = memory_init_code();
    lemma_vm_step_memory_init(p, s);
    lemma_tick(f);
    let f1 = VmFrame { ticks: i32_specs::wrapping_add(1, f.ticks), ..f };
    lemma_frame_run_concat(vm_tick_code(), code, f);
    lemma_memory_init_code(f1);
    let g = VmFrame { stack: f1.stack.push(0), memory: heap_init_memory(f1.memory), ..f1 };
    let r = init_call_ram(ram);
    assert forall|j: int| 0 <= j < kept + 1 implies #[trigger] g.stack[j] == r[r[0] - (kept + 1) + j] as i32 by {
        if j < kept {
            assert(g.stack[j] == f.stack[j]);
        }
    }
    assert forall|a: int| 5 <= a < r[0] - (kept + 1) implies #[trigger] g.memory[a] == held_word(saved, r, a) by {
        assert(r[a] == ram[a]);
    }
    assert(frame_holds_kept(g, r, kept + 1, saved));
    lemma_kept_agree(g, r, vm_step(p, s).unwrap().ram, kept + 1, saved);
}

/// The RAM after a call of `Memory.deAlloc` or `Array.dispose` with the top word as its
/// argument, as far as it lies at and below SP: the result 0 replaces the argument. (The
/// VM keeps its heap apart from the RAM, and leaves the call's frame above SP.)
pub open spec fn dealloc_call_ram(ram: Seq<Word>) -> Seq<Word> {
    let b = ram[0] as int;
    ram.update(b - 1, 0 as Word)
}

/// The operating-system function that runs `Memory.deAlloc` and `Array.dispose`.
proof fn lemma_dealloc_os_function(name: Seq<char>)
    requires
        name == "Memory.deAlloc"@ || name == "Array.dispose"@,
    ensures
        os_function(name) == Some(OsFunction::MemoryDealloc),
        in_place_call(name),
        name != "Math.multiply"@ && name != "Math.divide"@ && name != "Screen.clearScreen"@,
        name != "Screen.setColor"@ && name != "Screen.drawPixel"@ && name != "Memory.init"@,
        name != "Memory.alloc"@ && name != "Array.new"@,
{
    reveal_strlit("Math.init");
    reveal_strlit("Math.multiply");
    reveal_strlit("Math.divide");
    reveal_strlit("Math.min");
    reveal_strlit("Math.max");
    reveal_strlit("Math.sqrt");
    reveal_strlit("Math.abs");
    reveal_strlit("Array.new");
    reveal_strlit("Array.dispose");
    reveal_strlit("Keyboard.keyPressed");
    reveal_strlit("Screen.init");
    reveal_strlit("Screen.clearScreen");
    reveal_strlit("Screen.setColor");
    reveal_strlit("Screen.drawPixel");
    reveal_strlit("Screen.drawLine");
    reveal_strlit("Screen.drawRectangle");
    reveal_strlit("Screen.drawCircle");
    reveal_strlit("Memory.init");
    reveal_strlit("Memory.peek");
    reveal_strlit("Memory.poke");
    reveal_strlit("Memory.alloc");
    reveal_strlit("Memory.deAlloc");
    assert("Array.dispose"@[0] == 'A' && "Math.multiply"@[0] == 'M');
    assert("Memory.deAlloc"@.len() == 14);
    assert("Array.dispose"@.len() == 13);
}

/// For a call of `Memory.deAlloc` or `Array.dispose` with one argument above the
/// registers, the VM's step (which pushes a frame, runs the function and returns 0) leaves
/// the RAM of `dealloc_call_ram` at and below SP, and goes on to the next command.
#[verifier::spinoff_prover]
#[verifier::rlimit(50)]
proof fn lemma_vm_step_dealloc(p: ProgramSpec, s: RunSpec, name: Seq<char>)
    requires
        vm_step(p, s) is Some,
        p.commands[s.current_command_index as int] == Command::Call(name, 1),
        name == "Memory.deAlloc"@ || name == "Array.dispose"@,
        s.ram.len() == MEM_SIZE,
        6 <= s.ram[0],
        s.current_command_index + 1 <= i16::MAX,
    ensures
        vm_step(p, s).unwrap().current_command_index == s.current_command_index + 1,
        vm_step(p, s).unwrap().ram.len() == MEM_SIZE,
        forall|a: int|
            0 <= a < MEM_SIZE && !(s.ram[0] <= a <= s.ram[0] + 5) ==> #[trigger] vm_step(p, s).unwrap().ram[a]
                == dealloc_call_ram(s.ram)[a],
{
    lemma_dealloc_os_function(name);
    let ram = s.ram;
    let b = ram[0] as int;
    let i = s.current_command_index as int;
    let ss = p.files[s.current_file_index as int].static_start;
    let ret = (i + 1) as Word;
    lemma_push_frame(ram, ret);
    let r = push_frame(ram, ret).unwrap();
    let r2 = r.update(1, r[0]).update(2, (b - 1) as Word);
    assert(arg(r2, 0) == Some(ram[b - 1]));
    let f = os_function(name).unwrap();
    let e = os_effect(f, r2, s.os).unwrap();
    assert(e.0 == r2 && e.2 == 0);
    let r3 = r2.update(b + 5, 0 as Word).update(0, (b + 6) as Word);
    assert(push_ram(r2, 0 as Word) == Some(r3));
    assert(os_call(name, r2, s.os) == Some(Some((r3, e.1))));
    let q = pop_ram(r3).unwrap();
    assert(q.0 == r3.update(0, (b + 5) as Word));
    assert(q.1 == 0);
    assert(pop_address(q.0, ss, PopSegment::Argument, 0) == Some((b - 1) as Word));
    let r4 = q.0.update(b - 1, 0 as Word);
    assert(return_ram(r3, r3[1], ss) == Some((restore_registers(r4.update(0, b as Word), b), ret as usize)));
    let fin = restore_registers(r4.update(0, b as Word), b);
    assert forall|a: int| 0 <= a < MEM_SIZE && !(b <= a <= b + 5) implies #[trigger] fin[a] == dealloc_call_ram(ram)[a] by {}
}

proof fn lemma_dealloc_body(
    c: Command,
    i: int,
    jump: VmBranch,
    ss: Word,
    function_name: Option<Seq<char>>,
    labels: Map<Seq<char>, i32>,
    functions: Map<Seq<char>, i32>,
    calls: Map<usize, i32>,
    kept: nat,
    name: Seq<char>,
)
    requires
        c == Command::Call(name, 1),
        name == "Memory.deAlloc"@ || name == "Array.dispose"@,
    ensures
        command_body(c, i, jump, ss, function_name, labels, functions, calls, kept) == unary_code(kept, dealloc_code()),
{
    lemma_dealloc_os_function(name);
}

/// The code of a free puts block `a` at the head of the free list: the old head in the
/// block's link word `a`, the block's first word `a - 1` as a byte address at the head,
/// and 0 as the result.
proof fn lemma_dealloc_op(g: VmFrame, st: Seq<i32>, a: Word)
    requires
        g.stack == st.push(a as i32),
        g.branch is None,
        g.memory.len() == MEM_SIZE,
        1 <= a,
    ensures
        frame_run(dealloc_code(), g) == Some(
            VmFrame {
                stack: st.push(0),
                memory: g.memory.update(a as int, g.memory[2048]).update(2048, ((a - 1) * 4) as i32),
                temp2: ((a - 1) * 4) as i32,
                ..g
            },
        ),
{
    let code = dealloc_code();
    let n = st.len() as int;
    let x = a as i32;
    let w = (x - 1) as i32;
    lemma_address_shift(w);
    let y = (w * 4) as i32;
    let mem = g.memory;
    let m1 = mem.update(a as int, mem[2048]);
    let m2 = m1.update(2048, y);
    let f1 = VmFrame { stack: st.push(x).push(1), ..g };
    let f2 = VmFrame { stack: st.push(w), ..g };
    let f3 = VmFrame { stack: st.push(w).push(2), ..g };
    let f4 = VmFrame { stack: st.push(y), ..g };
    let f5 = VmFrame { stack: st.push(y), temp2: y, ..g };
    let f6 = VmFrame { stack: st.push(y).push(8192), temp2: y, ..g };
    let f7 = VmFrame { stack: st.push(y).push(mem[2048]), temp2: y, ..g };
    let f8 = VmFrame { stack: st, memory: m1, temp2: y, ..g };
    let f9 = VmFrame { stack: st.push(8192), memory: m1, temp2: y, ..g };
    let f10 = VmFrame { stack: st.push(8192).push(y), memory: m1, temp2: y, ..g };
    let f11 = VmFrame { stack: st, memory: m2, temp2: y, ..g };
    let f12 = VmFrame { stack: st.push(0), memory: m2, temp2: y, ..g };
    assert(st.push(x).push(1).subrange(0, n) =~= st);
    assert(st.push(w).push(2).subrange(0, n) =~= st);
    assert(st.push(y).push(8192).drop_last() =~= st.push(y));
    assert(st.push(y).push(mem[2048]).subrange(0, n) =~= st);
    assert(st.push(8192).push(y).subrange(0, n) =~= st);
    assert(frame_step(g, code[0]) == Some(f1));
    assert(frame_step(f1, code[1]) == Some(f2));
    assert(frame_step(f2, code[2]) == Some(f3));
    assert(frame_step(f3, code[3]) == Some(f4));
    assert(frame_step(f4, code[4]) == Some(f5));
    assert(frame_step(f5, code[5]) == Some(f6));
    assert(frame_step(f6, code[6]) == Some(f7));
    assert(frame_step(f7, code[7]) == Some(f8));
    assert(frame_step(f8, code[8]) == Some(f9));
    assert(frame_step(f9, code[9]) == Some(f10));
    assert(frame_step(f10, code[10]) == Some(f11));
    assert(frame_step(f11, code[11]) == Some(f12));
    assert(frame_run_from(code, 12, f12) == Some(f12));
    assert(frame_run_from(code, 11, f11) == Some(f12));
    assert(frame_run_from(code, 10, f10) == Some(f12));
    assert(frame_run_from(code, 9, f9) == Some(f12));
    assert(frame_run_from(code, 8, f8) == Some(f12));
    assert(frame_run_from(code, 7, f7) == Some(f12));
    assert(frame_run_from(code, 6, f6) == Some(f12));
    assert(frame_run_from(code, 5, f5) == Some(f12));
    assert(frame_run_from(code, 4, f4) == Some(f12));
    assert(frame_run_from(code, 3, f3) == Some(f12));
    assert(frame_run_from(code, 2, f2) == Some(f12));
    assert(frame_run_from(code, 1, f1) == Some(f12));
    assert(frame_run_from(code, 0, g) == Some(f12));
}

/// The compiled code of `Memory.deAlloc` or `Array.dispose`, which the compiled code runs
/// in place, with `kept` values of the VM stack kept on the operand stack before it, does
/// what the VM's step does below SP where the stack lies below the heap and the block
/// freed above the stack: the result 0 replaces the argument, kept on the operand stack
/// (the heap words the code writes lie above SP), and the VM goes on to the next command.
#[verifier::spinoff_prover]
#[verifier::rlimit(60)]
pub proof fn lemma_static_dealloc_steps(
    p: ProgramSpec,
    s: RunSpec,
    kept: nat,
    jump: VmBranch,
    function_name: Option<Seq<char>>,
    labels: Map<Seq<char>, i32>,
    functions: Map<Seq<char>, i32>,
    calls: Map<usize, i32>,
    f: VmFrame,
    saved: Map<int, i32>,
    name: Seq<char>,
)
    requires
        vm_step(p, s) is Some,
        p.commands[s.current_command_index as int] == Command::Call(name, 1),
        name == "Memory.deAlloc"@ || name == "Array.dispose"@,
        s.current_command_index + 1 <= i16::MAX,
        s.ram[0] <= 2048,
        s.ram[s.ram[0] - 1] >= s.ram[0],
        kept == 0 ==> 6 <= s.ram[0] && !saved.dom().contains(s.ram[0] - 1),
        frame_holds_kept(f, s.ram, kept, saved),
        f.branch is None,
    ensures
        ({
            let body = command_body(
                p.commands[s.current_command_index as int],
                s.current_command_index as int,
                jump,
                p.files[s.current_file_index as int].static_start,
                function_name,
                labels,
                functions,
                calls,
                kept,
            );
            &&& frame_run(vm_tick_code() + body.0, f) matches Some(g) && frame_holds_kept(
                g,
                vm_step(p, s).unwrap().ram,
                body.1,
                saved,
            ) && g.ticks == i32_specs::wrapping_add(1, f.ticks) && g.branch is None && g.jump_target == f.jump_target
            &&& vm_step(p, s).unwrap().current_command_index == s.current_command_index + 1
        }),
{
    let i = s.current_command_index as int;
    let c = p.commands[i];
    let ram = s.ram;
    let ss = p.files[s.current_file_index as int].static_start;
    lemma_dealloc_body(c, i, jump, ss, function_name, labels, functions, calls, kept, name);
    lemma_vm_step_dealloc(p, s, name);
    let b = ram[0] as int;
    let a = ram[b - 1];
    lemma_tick(f);
    let f1 = VmFrame { ticks: i32_specs::wrapping_add(1, f.ticks), ..f };
    lemma_frame_run_concat(vm_tick_code(), prepare1(kept).0 + dealloc_code(), f);
    lemma_frame_run_concat(prepare1(kept).0, dealloc_code(), f1);
    lemma_kept_take_top(f1, ram, kept, saved);
    let g1 = frame_run(prepare1(kept).0, f1).unwrap();
    let st = g1.stack.drop_last();
    assert(g1.stack =~= st.push(a as i32));
    let r1 = ram.update(0, (b - 1) as Word);
    let k1 = prepare1(kept).1;
    lemma_dealloc_op(g1, st, a);
    let g2 = VmFrame {
        stack: st.push(0),
        memory: g1.memory.update(a as int, g1.memory[2048]).update(2048, ((a - 1) * 4) as i32),
        temp2: ((a - 1) * 4) as i32,
        ..g1
    };
    assert(frame_holds_kept(VmFrame { stack: st, ..g1 }, r1, k1, saved));
    let h = VmFrame { stack: st, ..g2 };
    assert forall|x: int| 5 <= x < r1[0] - k1 implies #[trigger] h.memory[x] == held_word(saved, r1, x) by {
        assert(h.memory[x] == g1.memory[x]);
    }
    assert(frame_holds_kept(h, r1, k1, saved));
    lemma_kept_push(g2, st, r1, k1, 0, saved);
    assert(push_ram(r1, 0).unwrap() =~= dealloc_call_ram(ram));
    lemma_kept_agree(g2, dealloc_call_ram(ram), vm_step(p, s).unwrap().ram, k1 + 1, saved);
}

} // verus!

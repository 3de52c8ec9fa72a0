use vstd::prelude::*;
use vstd::wrapping::i32_specs;

use crate::hardware::{
    alu, alu_output, current_bits, execute, flag, is_c_instruction, jump_holds, jump_of_code, jumps,
    machine_wf, can_execute, step_result, steps_state, HackState, Instruction, JumpCondition, MEM_SIZE,
};

verus! {

/// A local variable of the compiled `run` function.
#[derive(Clone, Copy, Debug, PartialEq, Eq, Structural)]
pub enum WasmLocal {
    A,
    D,
    Ticks,
    JumpTarget,
    RamAddress,
    Result,
    Limit,
}

/// A global of the compiled module: the Hack registers A and D and the jump target kept
/// between calls of its `run` function.
#[derive(Clone, Copy, Debug, PartialEq, Eq, Structural)]
pub enum HackGlobal {
    A,
    D,
    JumpTarget,
}

/// The label a branch leaves to: the dispatch loop (which then picks the case that
/// `JumpTarget` names), or the block at a relative depth.
#[derive(Clone, Copy, Debug, PartialEq, Eq, Structural)]
pub enum BranchTarget {
    Loop,
    Depth(u32),
}

/// The WebAssembly instructions that compiled Hack code is made of.
#[derive(Clone, Copy, Debug, PartialEq, Eq, Structural)]
pub enum WasmInstr {
    I32Const(i32),
    LocalGet(WasmLocal),
    LocalSet(WasmLocal),
    LocalTee(WasmLocal),
    I32Add,
    I32Sub,
    I32And,
    I32Or,
    I32Xor,
    I32Shl,
    I32Extend16S,
    I32Load,
    I32Store,
    I32Eqz,
    I32Ne,
    I32LeS,
    I32GeS,
    I32LtS,
    I32GtS,
    Br(BranchTarget),
    BrIf(BranchTarget),
    I32GeU,
    GlobalGet(HackGlobal),
    GlobalSet(HackGlobal),
    Block,
    Loop,
    If,
    End,
    BrTable(u32),
    Return,
}

/// What straight-line WebAssembly code works on: the operand stack, the locals, linear
/// memory as 32-bit words (word `i` at byte address `4 * i`), and the branch once one is
/// taken.
pub struct WasmFrame {
    pub stack: Seq<i32>,
    pub a: i32,
    pub d: i32,
    pub ticks: i32,
    pub jump_target: i32,
    pub ram_address: i32,
    pub result: i32,
    pub limit: i32,
    pub memory: Seq<i32>,
    pub branch: Option<BranchTarget>,
}

/// The value of a local.
pub open spec fn local_value(f: WasmFrame, l: WasmLocal) -> i32 {
    match l {
        WasmLocal::A => f.a,
        WasmLocal::D => f.d,
        WasmLocal::Ticks => f.ticks,
        WasmLocal::JumpTarget => f.jump_target,
        WasmLocal::RamAddress => f.ram_address,
        WasmLocal::Result => f.result,
        WasmLocal::Limit => f.limit,
    }
}

/// The frame with one local changed.
pub open spec fn set_local(f: WasmFrame, l: WasmLocal, v: i32) -> WasmFrame {
    match l {
        WasmLocal::A => WasmFrame { a: v, ..f },
        WasmLocal::D => WasmFrame { d: v, ..f },
        WasmLocal::Ticks => WasmFrame { ticks: v, ..f },
        WasmLocal::JumpTarget => WasmFrame { jump_target: v, ..f },
        WasmLocal::RamAddress => WasmFrame { ram_address: v, ..f },
        WasmLocal::Result => WasmFrame { result: v, ..f },
        WasmLocal::Limit => WasmFrame { limit: v, ..f },
    }
}

/// A comparison result as WebAssembly gives it.
pub open spec fn bool_word(b: bool) -> i32 {
    if b { 1 } else { 0 }
}

/// `i32.extend16_s`: the low 16 bits of `v`, read as a signed number.
pub open spec fn extend16(v: i32) -> i32 {
    let low: int = (v as int) % 0x10000;
    (if low >= 0x8000 { low - 0x10000 } else { low }) as i32
}

/// The result of a binary instruction on the operands `x` (pushed first) and `y`.
pub open spec fn binary_result(i: WasmInstr, x: i32, y: i32) -> Option<i32> {
    match i {
        WasmInstr::I32Add => Some(i32_specs::wrapping_add(x, y)),
        WasmInstr::I32Sub => Some(i32_specs::wrapping_sub(x, y)),
        WasmInstr::I32And => Some(x & y),
        WasmInstr::I32Or => Some(x | y),
        WasmInstr::I32Xor => Some(x ^ y),
        WasmInstr::I32Shl => Some(i32_specs::wrapping_shl(x, y as u32)),
        WasmInstr::I32Ne => Some(bool_word(x != y)),
        WasmInstr::I32LeS => Some(bool_word(x <= y)),
        WasmInstr::I32GeS => Some(bool_word(x >= y)),
        WasmInstr::I32LtS => Some(bool_word(x < y)),
        WasmInstr::I32GtS => Some(bool_word(x > y)),
        _ => None,
    }
}

/// The memory word that a 4-byte access at byte address `p` reaches; `None` for a negative
/// (as an unsigned address, 2^31 or more), unaligned or out-of-range address.
pub open spec fn word_at(memory: Seq<i32>, p: i32) -> Option<int> {
    if 0 <= p && p % 4 == 0 && p / 4 < memory.len() {
        Some(p / 4)
    } else {
        None
    }
}

/// One instruction; `None` where it traps or finds too few operands.
pub open spec fn wasm_step(f: WasmFrame, i: WasmInstr) -> Option<WasmFrame> {
    let st = f.stack;
    let n = st.len();
    match i {
        WasmInstr::I32Const(c) => Some(WasmFrame { stack: st.push(c), ..f }),
        WasmInstr::LocalGet(l) => Some(WasmFrame { stack: st.push(local_value(f, l)), ..f }),
        WasmInstr::LocalSet(l) => if n >= 1 {
            Some(set_local(WasmFrame { stack: st.drop_last(), ..f }, l, st.last()))
        } else {
            None
        },
        WasmInstr::LocalTee(l) => if n >= 1 {
            Some(set_local(f, l, st.last()))
        } else {
            None
        },
        WasmInstr::I32Extend16S => if n >= 1 {
            Some(WasmFrame { stack: st.drop_last().push(extend16(st.last())), ..f })
        } else {
            None
        },
        WasmInstr::I32Eqz => if n >= 1 {
            Some(WasmFrame { stack: st.drop_last().push(bool_word(st.last() == 0)), ..f })
        } else {
            None
        },
        WasmInstr::I32Load => if n >= 1 {
            match word_at(f.memory, st.last()) {
                Some(w) => Some(WasmFrame { stack: st.drop_last().push(f.memory[w]), ..f }),
                None => None,
            }
        } else {
            None
        },
        WasmInstr::I32Store => if n >= 2 {
            match word_at(f.memory, st[n - 2]) {
                Some(w) => Some(
                    WasmFrame { stack: st.subrange(0, n - 2), memory: f.memory.update(w, st[n - 1]), ..f },
                ),
                None => None,
            }
        } else {
            None
        },
        WasmInstr::Br(t) => Some(WasmFrame { branch: Some(t), ..f }),
        WasmInstr::BrIf(t) => if n >= 1 {
            Some(
                WasmFrame {
                    stack: st.drop_last(),
                    branch: if st.last() != 0 { Some(t) } else { f.branch },
                    ..f
                },
            )
        } else {
            None
        },
        _ => if n >= 2 {
            match binary_result(i, st[n - 2], st[n - 1]) {
                Some(r) => Some(WasmFrame { stack: st.subrange(0, n - 2).push(r), ..f }),
                None => None,
            }
        } else {
            None
        },
    }
}

/// Runs `code` from index `i`; once a branch is taken the rest is skipped.
pub open spec fn run_from(code: Seq<WasmInstr>, i: int, f: WasmFrame) -> Option<WasmFrame>
    decreases code.len() - i,
{
    if f.branch is Some || i < 0 || i >= code.len() {
        Some(f)
    } else {
        match wasm_step(f, code[i]) {
            None => None,
            Some(g) => run_from(code, i + 1, g),
        }
    }
}

/// Runs straight-line code from its start.
pub open spec fn run_code(code: Seq<WasmInstr>, f: WasmFrame) -> Option<WasmFrame> {
    run_from(code, 0, f)
}

/// Counts one more executed Hack instruction.
pub open spec fn tick_code() -> Seq<WasmInstr> {
    seq![
        WasmInstr::I32Const(1),
        WasmInstr::LocalGet(WasmLocal::Ticks),
        WasmInstr::I32Add,
        WasmInstr::LocalSet(WasmLocal::Ticks),
    ]
}

/// How many places take the computed value: each destination register, and a conditional
/// jump.
pub open spec fn result_users(raw: u16) -> int {
    (if flag(raw, 5) { 1int } else { 0 }) + (if flag(raw, 4) { 1int } else { 0 }) + (if flag(
        raw,
        3,
    ) { 1int } else { 0 }) + (if jump_of_code(raw & 7) != JumpCondition::NoJump && jump_of_code(
        raw & 7,
    ) != JumpCondition::JMP { 1int } else { 0 })
}

/// The computation bits that have a mnemonic.
pub open spec fn known_comp(c: u16) -> bool {
    ||| c == 0x01AA || c == 0x01BF || c == 0x01BA || c == 0x018C
    ||| c == 0x01B0 || c == 0x01F0 || c == 0x018D || c == 0x01B1
    ||| c == 0x01F1 || c == 0x018F || c == 0x01B3 || c == 0x01F3
    ||| c == 0x019F || c == 0x01B7 || c == 0x01F7 || c == 0x018E
    ||| c == 0x01B2 || c == 0x01F2 || c == 0x0182 || c == 0x01C2
    ||| c == 0x0193 || c == 0x0187 || c == 0x01D3 || c == 0x01C7
    ||| c == 0x0180 || c == 0x01C0 || c == 0x0195 || c == 0x01D5
}

/// The computation bits of an instruction word.
pub open spec fn comp_of(raw: u16) -> u16 {
    (raw >> 6u16) & 0x01FFu16
}

/// An instruction can be compiled: an A-instruction, or a C-instruction whose value is
/// either unused or computed by a known mnemonic.
pub open spec fn compilable(raw: u16) -> bool {
    !is_c_instruction(raw) || result_users(raw) == 0 || known_comp(comp_of(raw))
}

/// Saves the old A as the jump target, where a jump goes back to the dispatch loop.
pub open spec fn save_target_code(raw: u16, target: BranchTarget) -> Seq<WasmInstr> {
    if target is Loop && jump_of_code(raw & 7) != JumpCondition::NoJump {
        seq![WasmInstr::LocalGet(WasmLocal::A), WasmInstr::LocalSet(WasmLocal::JumpTarget)]
    } else {
        seq![]
    }
}

/// Pushes the byte address of M.
pub open spec fn m_address_code() -> Seq<WasmInstr> {
    seq![WasmInstr::LocalGet(WasmLocal::A), WasmInstr::I32Const(2), WasmInstr::I32Shl]
}

/// Pushes M: from the saved address where M is also the destination, else from A.
pub open spec fn load_m_code(dst_has_m: bool) -> Seq<WasmInstr> {
    if dst_has_m {
        seq![WasmInstr::LocalGet(WasmLocal::RamAddress), WasmInstr::I32Load]
    } else {
        m_address_code().push(WasmInstr::I32Load)
    }
}

/// The code of each mnemonic, with `load_m` the code that pushes M.
pub open spec fn comp_code(c: u16, load_m: Seq<WasmInstr>) -> Seq<WasmInstr> {
    let get_a = WasmInstr::LocalGet(WasmLocal::A);
    let get_d = WasmInstr::LocalGet(WasmLocal::D);
    let ext = WasmInstr::I32Extend16S;
    if c == 0x01AA {
        seq![WasmInstr::I32Const(0i32)]
    } else if c == 0x01BF {
        seq![WasmInstr::I32Const(1)]
    } else if c == 0x01BA {
        seq![WasmInstr::I32Const(-1i32)]
    } else if c == 0x018C {
        seq![get_d]
    } else if c == 0x018D {
        seq![WasmInstr::I32Const(-1i32), get_d, WasmInstr::I32Xor]
    } else if c == 0x018F {
        seq![WasmInstr::I32Const(0), get_d, WasmInstr::I32Sub, ext]
    } else if c == 0x019F {
        seq![get_d, WasmInstr::I32Const(1), WasmInstr::I32Add, ext]
    } else if c == 0x018E {
        seq![get_d, WasmInstr::I32Const(1), WasmInstr::I32Sub, ext]
    } else if c == 0x01B0 {
        seq![get_a]
    } else if c == 0x01B1 {
        seq![WasmInstr::I32Const(-1i32), get_a, WasmInstr::I32Xor]
    } else if c == 0x01B3 {
        seq![WasmInstr::I32Const(0), get_a, WasmInstr::I32Sub, ext]
    } else if c == 0x01B7 {
        seq![get_a, WasmInstr::I32Const(1), WasmInstr::I32Add, ext]
    } else if c == 0x01B2 {
        seq![get_a, WasmInstr::I32Const(1), WasmInstr::I32Sub, ext]
    } else if c == 0x0182 {
        seq![get_d, get_a, WasmInstr::I32Add, ext]
    } else if c == 0x0193 {
        seq![get_d, get_a, WasmInstr::I32Sub, ext]
    } else if c == 0x0187 {
        seq![get_a, get_d, WasmInstr::I32Sub, ext]
    } else if c == 0x0180 {
        seq![get_d, get_a, WasmInstr::I32And]
    } else if c == 0x0195 {
        seq![get_d, get_a, WasmInstr::I32Or]
    } else if c == 0x01F0 {
        load_m
    } else if c == 0x01F1 {
        load_m + seq![WasmInstr::I32Const(-1i32), WasmInstr::I32Xor]
    } else if c == 0x01F3 {
        seq![WasmInstr::I32Const(0i32)] + load_m + seq![WasmInstr::I32Sub, ext]
    } else if c == 0x01F7 {
        load_m + seq![WasmInstr::I32Const(1), WasmInstr::I32Add, ext]
    } else if c == 0x01F2 {
        load_m + seq![WasmInstr::I32Const(1), WasmInstr::I32Sub, ext]
    } else if c == 0x01C2 {
        seq![get_d] + load_m + seq![WasmInstr::I32Add, ext]
    } else if c == 0x01D3 {
        seq![get_d] + load_m + seq![WasmInstr::I32Sub, ext]
    } else if c == 0x01C7 {
        load_m + seq![get_d, WasmInstr::I32Sub, ext]
    } else if c == 0x01C0 {
        seq![get_d] + load_m + seq![WasmInstr::I32And]
    } else {
        seq![get_d] + load_m + seq![WasmInstr::I32Or]
    }
}

/// Computes the value of a C-instruction, where anything uses it; with an M destination
/// the address of M is pushed first (and saved where M is also read).
pub open spec fn value_code(raw: u16) -> Seq<WasmInstr> {
    if result_users(raw) > 0 {
        address_code(raw) + comp_code(comp_of(raw), load_m_code(flag(raw, 3)))
    } else {
        seq![]
    }
}

/// Where M is a destination, pushes its address, saving it where M is also read.
pub open spec fn address_code(raw: u16) -> Seq<WasmInstr> {
    if flag(raw, 3) {
        if flag(raw, 12) {
            m_address_code().push(WasmInstr::LocalTee(WasmLocal::RamAddress))
        } else {
            m_address_code()
        }
    } else {
        seq![]
    }
}

/// Stores the value into A, D and M as the destination bits say, keeping a copy on the
/// stack while a later user needs it.
pub open spec fn dest_code(raw: u16) -> Seq<WasmInstr> {
    let users = result_users(raw);
    let after_a = users - (if flag(raw, 5) { 1int } else { 0 });
    let after_d = after_a - (if flag(raw, 4) { 1int } else { 0 });
    let a_part = if flag(raw, 5) {
        seq![if users > 1 { WasmInstr::LocalTee(WasmLocal::A) } else { WasmInstr::LocalSet(WasmLocal::A) }]
    } else {
        seq![]
    };
    let d_part = if flag(raw, 4) {
        seq![if after_a > 1 { WasmInstr::LocalTee(WasmLocal::D) } else { WasmInstr::LocalSet(WasmLocal::D) }]
    } else {
        seq![]
    };
    let m_part = if flag(raw, 3) {
        if after_d > 1 {
            seq![
                WasmInstr::LocalTee(WasmLocal::Result),
                WasmInstr::I32Store,
                WasmInstr::LocalGet(WasmLocal::Result),
            ]
        } else {
            seq![WasmInstr::I32Store]
        }
    } else {
        seq![]
    };
    a_part + d_part + m_part
}

/// Branches as the jump condition says, testing the value left on the stack.
pub open spec fn branch_code(j: JumpCondition, target: BranchTarget) -> Seq<WasmInstr> {
    match j {
        JumpCondition::NoJump => seq![],
        JumpCondition::JMP => seq![WasmInstr::Br(target)],
        JumpCondition::JNE => seq![WasmInstr::I32Const(0), WasmInstr::I32Ne, WasmInstr::BrIf(target)],
        JumpCondition::JEQ => seq![WasmInstr::I32Eqz, WasmInstr::BrIf(target)],
        JumpCondition::JLE => seq![WasmInstr::I32Const(0), WasmInstr::I32LeS, WasmInstr::BrIf(target)],
        JumpCondition::JGE => seq![WasmInstr::I32Const(0), WasmInstr::I32GeS, WasmInstr::BrIf(target)],
        JumpCondition::JLT => seq![WasmInstr::I32Const(0), WasmInstr::I32LtS, WasmInstr::BrIf(target)],
        JumpCondition::JGT => seq![WasmInstr::I32Const(0), WasmInstr::I32GtS, WasmInstr::BrIf(target)],
    }
}

/// The code of one Hack instruction: count it, then load A (A-instruction) or compute,
/// store and jump (C-instruction).
pub open spec fn instr_code(raw: u16, target: BranchTarget) -> Seq<WasmInstr> {
    tick_code() + if !is_c_instruction(raw) {
        seq![WasmInstr::I32Const((raw as i16) as i32), WasmInstr::LocalSet(WasmLocal::A)]
    } else {
        save_target_code(raw, target) + value_code(raw) + dest_code(raw) + branch_code(
            jump_of_code(raw & 7),
            target,
        )
    }
}

fn push_load_m(code: &mut Vec<WasmInstr>, dst_has_m: bool)
    ensures
        final(code)@ == old(code)@ + load_m_code(dst_has_m),
{
    if dst_has_m {
        code.push(WasmInstr::LocalGet(WasmLocal::RamAddress));
        code.push(WasmInstr::I32Load);
    } else {
        code.push(WasmInstr::LocalGet(WasmLocal::A));
        code.push(WasmInstr::I32Const(2));
        code.push(WasmInstr::I32Shl);
        code.push(WasmInstr::I32Load);
    }
}

/// Pushes the code of the mnemonic with computation bits `c`.
fn push_comp(code: &mut Vec<WasmInstr>, c: u16, dst_has_m: bool)
    requires
        known_comp(c),
    ensures
        final(code)@ == old(code)@ + comp_code(c, load_m_code(dst_has_m)),
{
    if c == 0x01AA {
        code.push(WasmInstr::I32Const(0));
    } else if c == 0x01BF {
        code.push(WasmInstr::I32Const(1));
    } else if c == 0x01BA {
        code.push(WasmInstr::I32Const(-1));
    } else if c == 0x018C {
        code.push(WasmInstr::LocalGet(WasmLocal::D));
    } else if c == 0x018D {
        code.push(WasmInstr::I32Const(-1));
        code.push(WasmInstr::LocalGet(WasmLocal::D));
        code.push(WasmInstr::I32Xor);
    } else if c == 0x018F {
        code.push(WasmInstr::I32Const(0));
        code.push(WasmInstr::LocalGet(WasmLocal::D));
        code.push(WasmInstr::I32Sub);
        code.push(WasmInstr::I32Extend16S);
    } else if c == 0x019F {
        code.push(WasmInstr::LocalGet(WasmLocal::D));
        code.push(WasmInstr::I32Const(1));
        code.push(WasmInstr::I32Add);
        code.push(WasmInstr::I32Extend16S);
    } else if c == 0x018E {
        code.push(WasmInstr::LocalGet(WasmLocal::D));
        code.push(WasmInstr::I32Const(1));
        code.push(WasmInstr::I32Sub);
        code.push(WasmInstr::I32Extend16S);
    } else if c == 0x01B0 {
        code.push(WasmInstr::LocalGet(WasmLocal::A));
    } else if c == 0x01B1 {
        code.push(WasmInstr::I32Const(-1));
        code.push(WasmInstr::LocalGet(WasmLocal::A));
        code.push(WasmInstr::I32Xor);
    } else if c == 0x01B3 {
        code.push(WasmInstr::I32Const(0));
        code.push(WasmInstr::LocalGet(WasmLocal::A));
        code.push(WasmInstr::I32Sub);
        code.push(WasmInstr::I32Extend16S);
    } else if c == 0x01B7 {
        code.push(WasmInstr::LocalGet(WasmLocal::A));
        code.push(WasmInstr::I32Const(1));
        code.push(WasmInstr::I32Add);
        code.push(WasmInstr::I32Extend16S);
    } else if c == 0x01B2 {
        code.push(WasmInstr::LocalGet(WasmLocal::A));
        code.push(WasmInstr::I32Const(1));
        code.push(WasmInstr::I32Sub);
        code.push(WasmInstr::I32Extend16S);
    } else if c == 0x0182 {
        code.push(WasmInstr::LocalGet(WasmLocal::D));
        code.push(WasmInstr::LocalGet(WasmLocal::A));
        code.push(WasmInstr::I32Add);
        code.push(WasmInstr::I32Extend16S);
    } else if c == 0x0193 {
        code.push(WasmInstr::LocalGet(WasmLocal::D));
        code.push(WasmInstr::LocalGet(WasmLocal::A));
        code.push(WasmInstr::I32Sub);
        code.push(WasmInstr::I32Extend16S);
    } else if c == 0x0187 {
        code.push(WasmInstr::LocalGet(WasmLocal::A));
        code.push(WasmInstr::LocalGet(WasmLocal::D));
        code.push(WasmInstr::I32Sub);
        code.push(WasmInstr::I32Extend16S);
    } else if c == 0x0180 {
        code.push(WasmInstr::LocalGet(WasmLocal::D));
        code.push(WasmInstr::LocalGet(WasmLocal::A));
        code.push(WasmInstr::I32And);
    } else if c == 0x0195 {
        code.push(WasmInstr::LocalGet(WasmLocal::D));
        code.push(WasmInstr::LocalGet(WasmLocal::A));
        code.push(WasmInstr::I32Or);
    } else if c == 0x01F0 {
        push_load_m(code, dst_has_m);
    } else if c == 0x01F1 {
        push_load_m(code, dst_has_m);
        code.push(WasmInstr::I32Const(-1));
        code.push(WasmInstr::I32Xor);
    } else if c == 0x01F3 {
        code.push(WasmInstr::I32Const(0));
        push_load_m(code, dst_has_m);
        code.push(WasmInstr::I32Sub);
        code.push(WasmInstr::I32Extend16S);
    } else if c == 0x01F7 {
        push_load_m(code, dst_has_m);
        code.push(WasmInstr::I32Const(1));
        code.push(WasmInstr::I32Add);
        code.push(WasmInstr::I32Extend16S);
    } else if c == 0x01F2 {
        push_load_m(code, dst_has_m);
        code.push(WasmInstr::I32Const(1));
        code.push(WasmInstr::I32Sub);
        code.push(WasmInstr::I32Extend16S);
    } else if c == 0x01C2 {
        code.push(WasmInstr::LocalGet(WasmLocal::D));
        push_load_m(code, dst_has_m);
        code.push(WasmInstr::I32Add);
        code.push(WasmInstr::I32Extend16S);
    } else if c == 0x01D3 {
        code.push(WasmInstr::LocalGet(WasmLocal::D));
        push_load_m(code, dst_has_m);
        code.push(WasmInstr::I32Sub);
        code.push(WasmInstr::I32Extend16S);
    } else if c == 0x01C7 {
        push_load_m(code, dst_has_m);
        code.push(WasmInstr::LocalGet(WasmLocal::D));
        code.push(WasmInstr::I32Sub);
        code.push(WasmInstr::I32Extend16S);
    } else if c == 0x01C0 {
        code.push(WasmInstr::LocalGet(WasmLocal::D));
        push_load_m(code, dst_has_m);
        code.push(WasmInstr::I32And);
    } else {
        code.push(WasmInstr::LocalGet(WasmLocal::D));
        push_load_m(code, dst_has_m);
        code.push(WasmInstr::I32Or);
    }
}

/// The number of places that take the value of the C-instruction `hack_instr`.
fn count_result_users(hack_instr: &Instruction) -> (r: u8)
    ensures
        r == result_users(hack_instr.bits()),
        r <= 4,
{
    let jump = hack_instr.jump_condition();
    let mut users: u8 = 0;
    if hack_instr.dst_has_a() {
        users = users + 1;
    }
    if hack_instr.dst_has_d() {
        users = users + 1;
    }
    if hack_instr.dst_has_m() {
        users = users + 1;
    }
    if jump != JumpCondition::NoJump && jump != JumpCondition::JMP {
        users = users + 1;
    }
    users
}

/// Pushes a branch to `target` that is taken when the jump condition holds of the value
/// on the stack.
fn push_branch(code: &mut Vec<WasmInstr>, jump: JumpCondition, target: BranchTarget)
    ensures
        final(code)@ == old(code)@ + branch_code(jump, target),
{
    match jump {
        JumpCondition::JMP => code.push(WasmInstr::Br(target)),
        JumpCondition::JNE => {
            code.push(WasmInstr::I32Const(0));
            code.push(WasmInstr::I32Ne);
            code.push(WasmInstr::BrIf(target));
        },
        JumpCondition::JEQ => {
            code.push(WasmInstr::I32Eqz);
            code.push(WasmInstr::BrIf(target));
        },
        JumpCondition::JLE => {
            code.push(WasmInstr::I32Const(0));
            code.push(WasmInstr::I32LeS);
            code.push(WasmInstr::BrIf(target));
        },
        JumpCondition::JGE => {
            code.push(WasmInstr::I32Const(0));
            code.push(WasmInstr::I32GeS);
            code.push(WasmInstr::BrIf(target));
        },
        JumpCondition::JLT => {
            code.push(WasmInstr::I32Const(0));
            code.push(WasmInstr::I32LtS);
            code.push(WasmInstr::BrIf(target));
        },
        JumpCondition::JGT => {
            code.push(WasmInstr::I32Const(0));
            code.push(WasmInstr::I32GtS);
            code.push(WasmInstr::BrIf(target));
        },
        JumpCondition::NoJump => {},
    }
}

/// Pushes the code that computes the value of the C-instruction `hack_instr`.
fn push_value(code: &mut Vec<WasmInstr>, hack_instr: &Instruction)
    requires
        is_c_instruction(hack_instr.bits()),
        compilable(hack_instr.bits()),
    ensures
        final(code)@ == old(code)@ + value_code(hack_instr.bits()),
{
    let ghost before = code@;
    let result_users = count_result_users(hack_instr);
    if result_users > 0 {
        let dst_has_m = hack_instr.dst_has_m();
        let c = hack_instr.comp_bits();
        if dst_has_m {
            code.push(WasmInstr::LocalGet(WasmLocal::A));
            code.push(WasmInstr::I32Const(2));
            code.push(WasmInstr::I32Shl);
            if hack_instr.flag(12) {
                code.push(WasmInstr::LocalTee(WasmLocal::RamAddress));
            }
        }
        let ghost address = code@;
        push_comp(code, c, dst_has_m);
        assert(code@ =~= before + value_code(hack_instr.bits())) by {
            if dst_has_m {
                if flag(hack_instr.bits(), 12) {
                    assert(address =~= before + m_address_code().push(
                        WasmInstr::LocalTee(WasmLocal::RamAddress),
                    ));
                } else {
                    assert(address =~= before + m_address_code());
                }
            } else {
                assert(address =~= before);
            }
        }
    } else {
        assert(code@ =~= before + value_code(hack_instr.bits()));
    }
}

/// Pushes the code that stores the value of the C-instruction `hack_instr` into its
/// destinations.
fn push_dest(code: &mut Vec<WasmInstr>, hack_instr: &Instruction)
    ensures
        final(code)@ == old(code)@ + dest_code(hack_instr.bits()),
{
    let ghost raw = hack_instr.bits();
    let ghost before = code@;
    let mut result_users = count_result_users(hack_instr);
    if hack_instr.dst_has_a() {
        if result_users > 1 {
            code.push(WasmInstr::LocalTee(WasmLocal::A));
        } else {
            code.push(WasmInstr::LocalSet(WasmLocal::A));
        }
        result_users = result_users - 1;
    }
    let ghost after_a = code@;
    if hack_instr.dst_has_d() {
        if result_users > 1 {
            code.push(WasmInstr::LocalTee(WasmLocal::D));
        } else {
            code.push(WasmInstr::LocalSet(WasmLocal::D));
        }
        result_users = result_users - 1;
    }
    let ghost after_d = code@;
    if hack_instr.dst_has_m() {
        if result_users > 1 {
            code.push(WasmInstr::LocalTee(WasmLocal::Result));
        }
        code.push(WasmInstr::I32Store);
        if result_users > 1 {
            code.push(WasmInstr::LocalGet(WasmLocal::Result));
        }
    }
    let ghost users = crate::hack_to_wasm::result_users(raw);
    let ghost ua = users - (if flag(raw, 5) { 1int } else { 0 });
    assert(after_a =~= before + (if flag(raw, 5) {
        seq![if users > 1 { WasmInstr::LocalTee(WasmLocal::A) } else { WasmInstr::LocalSet(WasmLocal::A) }]
    } else {
        seq![]
    }));
    assert(after_d =~= after_a + (if flag(raw, 4) {
        seq![if ua > 1 { WasmInstr::LocalTee(WasmLocal::D) } else { WasmInstr::LocalSet(WasmLocal::D) }]
    } else {
        seq![]
    }));
    assert(code@ =~= before + dest_code(raw));
}

/// Compiles one Hack instruction to WebAssembly: the ticks counter goes up by one; an
/// A-instruction loads A; a C-instruction saves the old A as the jump target (where jumps
/// go back to the dispatch loop), computes its value where anything uses it, stores it into
/// A, D and M, and branches to `jump_index` as its jump condition says.
pub fn hack_instr_to_wasm(hack_instr: &Instruction, jump_index: BranchTarget) -> (code: Vec<
    WasmInstr,
>)
    requires
        compilable(hack_instr.bits()),
    ensures
        code@ == instr_code(hack_instr.bits(), jump_index),
{
    let ghost raw = hack_instr.bits();
    let mut code: Vec<WasmInstr> = Vec::new();
    code.push(WasmInstr::I32Const(1));
    code.push(WasmInstr::LocalGet(WasmLocal::Ticks));
    code.push(WasmInstr::I32Add);
    code.push(WasmInstr::LocalSet(WasmLocal::Ticks));
    assert(code@ =~= tick_code());

    if !hack_instr.flag(15) {
        code.push(WasmInstr::I32Const(hack_instr.loaded_value() as i32));
        code.push(WasmInstr::LocalSet(WasmLocal::A));
        assert(code@ =~= instr_code(raw, jump_index));
        return code;
    }
    let jump = hack_instr.jump_condition();
    let to_loop = match jump_index {
        BranchTarget::Loop => true,
        BranchTarget::Depth(_) => false,
    };
    if to_loop && jump != JumpCondition::NoJump {
        code.push(WasmInstr::LocalGet(WasmLocal::A));
        code.push(WasmInstr::LocalSet(WasmLocal::JumpTarget));
    }
    let ghost after_save = code@;
    assert(after_save =~= tick_code() + save_target_code(raw, jump_index));
    push_value(&mut code, hack_instr);
    push_dest(&mut code, hack_instr);
    push_branch(&mut code, jump, jump_index);
    assert(code@ =~= instr_code(raw, jump_index));
    code
}

/// Continues with `code` from where a run left off.
pub open spec fn then_run(r: Option<WasmFrame>, code: Seq<WasmInstr>) -> Option<WasmFrame> {
    match r {
        None => None,
        Some(g) => run_code(code, g),
    }
}

proof fn lemma_run_suffix(c1: Seq<WasmInstr>, c2: Seq<WasmInstr>, j: int, f: WasmFrame)
    requires
        0 <= j <= c2.len(),
    ensures
        run_from(c1 + c2, c1.len() + j, f) == run_from(c2, j, f),
    decreases c2.len() - j,
{
    if f.branch is None && j < c2.len() {
        assert((c1 + c2)[c1.len() + j] == c2[j]);
        if let Some(g) = wasm_step(f, c2[j]) {
            lemma_run_suffix(c1, c2, j + 1, g);
        }
    }
}

proof fn lemma_run_prefix(c1: Seq<WasmInstr>, c2: Seq<WasmInstr>, i: int, f: WasmFrame)
    requires
        0 <= i <= c1.len(),
    ensures
        run_from(c1 + c2, i, f) == then_run(run_from(c1, i, f), c2),
    decreases c1.len() - i,
{
    if i == c1.len() {
        lemma_run_suffix(c1, c2, 0, f);
    } else if f.branch is None {
        assert((c1 + c2)[i] == c1[i]);
        if let Some(g) = wasm_step(f, c1[i]) {
            lemma_run_prefix(c1, c2, i + 1, g);
        }
    }
}

/// Running `c1 + c2` runs `c1`, then `c2` from where `c1` left off.
pub proof fn lemma_run_concat(c1: Seq<WasmInstr>, c2: Seq<WasmInstr>, f: WasmFrame)
    ensures
        run_code(c1 + c2, f) == then_run(run_code(c1, f), c2),
{
    lemma_run_prefix(c1, c2, 0, f);
}

proof fn lemma_tick(f: WasmFrame)
    requires
        f.branch is None,
    ensures
        run_code(tick_code(), f) == Some(WasmFrame { ticks: i32_specs::wrapping_add(1, f.ticks), ..f }),
{
    reveal_with_fuel(run_from, 5);
    let st = f.stack;
    assert(st.push(1).push(f.ticks).subrange(0, st.len() as int) =~= st);
    assert(st.push(i32_specs::wrapping_add(1, f.ticks)).drop_last() =~= st);
}

proof fn lemma_word_bits()
    by (bit_vector)
    ensures
        forall|v: i16| #[trigger] (!v) == -v - 1,
        forall|v: i16| #[trigger] (v & -1i16) == v,
        forall|v: i16| #[trigger] (-1i16 & v) == v,
        forall|v: i32| #[trigger] (v ^ -1i32) == -v - 1,
        forall|v: i32| #[trigger] (-1i32 ^ v) == -v - 1,
        forall|x: i16, y: i16| #[trigger] ((x & y) as i32) == (x as i32) & (y as i32),
        forall|x: i16, y: i16| #[trigger] ((x | y) as i32) == (x as i32) | (y as i32),
        forall|x: i16, y: i16| #[trigger] (!(!x & !y)) == x | y,
{
}

proof fn lemma_shift_address(v: i32)
    by (bit_vector)
    requires
        -32768 <= v <= 32767,
    ensures
        v << 2u32 == v * 4,
{
}

proof fn lemma_comp_flags(raw: u16)
    by (bit_vector)
    ensures
        flag(raw, 6) == (((raw >> 6u16) & 0x01FFu16) % 2 == 1),
        flag(raw, 7) == ((((raw >> 6u16) & 0x01FFu16) / 2) % 2 == 1),
        flag(raw, 8) == ((((raw >> 6u16) & 0x01FFu16) / 4) % 2 == 1),
        flag(raw, 9) == ((((raw >> 6u16) & 0x01FFu16) / 8) % 2 == 1),
        flag(raw, 10) == ((((raw >> 6u16) & 0x01FFu16) / 16) % 2 == 1),
        flag(raw, 11) == ((((raw >> 6u16) & 0x01FFu16) / 32) % 2 == 1),
        flag(raw, 12) == ((((raw >> 6u16) & 0x01FFu16) / 64) % 2 == 1),
{
}

/// The value that the code of the mnemonic `c` computes from D, A and M.
spec fn comp_value(c: u16, d: i32, a: i32, m: i32) -> i32 {
    if c == 0x01AA {
        0
    } else if c == 0x01BF {
        1
    } else if c == 0x01BA {
        -1i32
    } else if c == 0x018C {
        d
    } else if c == 0x018D {
        -1i32 ^ d
    } else if c == 0x018F {
        extend16(i32_specs::wrapping_sub(0, d))
    } else if c == 0x019F {
        extend16(i32_specs::wrapping_add(d, 1))
    } else if c == 0x018E {
        extend16(i32_specs::wrapping_sub(d, 1))
    } else if c == 0x01B0 {
        a
    } else if c == 0x01B1 {
        -1i32 ^ a
    } else if c == 0x01B3 {
        extend16(i32_specs::wrapping_sub(0, a))
    } else if c == 0x01B7 {
        extend16(i32_specs::wrapping_add(a, 1))
    } else if c == 0x01B2 {
        extend16(i32_specs::wrapping_sub(a, 1))
    } else if c == 0x0182 {
        extend16(i32_specs::wrapping_add(d, a))
    } else if c == 0x0193 {
        extend16(i32_specs::wrapping_sub(d, a))
    } else if c == 0x0187 {
        extend16(i32_specs::wrapping_sub(a, d))
    } else if c == 0x0180 {
        d & a
    } else if c == 0x0195 {
        d | a
    } else if c == 0x01F0 {
        m
    } else if c == 0x01F1 {
        m ^ -1i32
    } else if c == 0x01F3 {
        extend16(i32_specs::wrapping_sub(0, m))
    } else if c == 0x01F7 {
        extend16(i32_specs::wrapping_add(m, 1))
    } else if c == 0x01F2 {
        extend16(i32_specs::wrapping_sub(m, 1))
    } else if c == 0x01C2 {
        extend16(i32_specs::wrapping_add(d, m))
    } else if c == 0x01D3 {
        extend16(i32_specs::wrapping_sub(d, m))
    } else if c == 0x01C7 {
        extend16(i32_specs::wrapping_sub(m, d))
    } else if c == 0x01C0 {
        d & m
    } else {
        d | m
    }
}

#[verifier::spinoff_prover]
#[verifier::rlimit(100)]
proof fn lemma_alu_group0(x: i16, a: i16, m: i16, raw: u16)
    requires
        comp_of(raw) == 0x01AA || comp_of(raw) == 0x01BF || comp_of(raw) == 0x01BA || comp_of(raw) == 0x018C,
    ensures
        alu(x, if flag(raw, 12) { m } else { a }, raw) as i32 == comp_value(
            comp_of(raw),
            x as i32,
            a as i32,
            m as i32,
        ),
{
    lemma_comp_flags(raw);
    lemma_word_bits();
    let c = comp_of(raw);
    if c == 0x01AA {
    }    else if c == 0x01BF {
    }    else if c == 0x01BA {
    }    else if c == 0x018C {
    }
}

#[verifier::spinoff_prover]
#[verifier::rlimit(100)]
proof fn lemma_alu_group1(x: i16, a: i16, m: i16, raw: u16)
    requires
        comp_of(raw) == 0x018D || comp_of(raw) == 0x018F || comp_of(raw) == 0x019F || comp_of(raw) == 0x018E,
    ensures
        alu(x, if flag(raw, 12) { m } else { a }, raw) as i32 == comp_value(
            comp_of(raw),
            x as i32,
            a as i32,
            m as i32,
        ),
{
    lemma_comp_flags(raw);
    lemma_word_bits();
    let c = comp_of(raw);
    if c == 0x018D {
    }    else if c == 0x018F {
    }    else if c == 0x019F {
    }    else if c == 0x018E {
    }
}

#[verifier::spinoff_prover]
#[verifier::rlimit(100)]
proof fn lemma_alu_group2(x: i16, a: i16, m: i16, raw: u16)
    requires
        comp_of(raw) == 0x01B0 || comp_of(raw) == 0x01B1 || comp_of(raw) == 0x01B3 || comp_of(raw) == 0x01B7,
    ensures
        alu(x, if flag(raw, 12) { m } else { a }, raw) as i32 == comp_value(
            comp_of(raw),
            x as i32,
            a as i32,
            m as i32,
        ),
{
    lemma_comp_flags(raw);
    lemma_word_bits();
    let c = comp_of(raw);
    if c == 0x01B0 {
    }    else if c == 0x01B1 {
    }    else if c == 0x01B3 {
    }    else if c == 0x01B7 {
    }
}

#[verifier::spinoff_prover]
#[verifier::rlimit(100)]
proof fn lemma_alu_group3(x: i16, a: i16, m: i16, raw: u16)
    requires
        comp_of(raw) == 0x01B2 || comp_of(raw) == 0x0182 || comp_of(raw) == 0x0193 || comp_of(raw) == 0x0187,
    ensures
        alu(x, if flag(raw, 12) { m } else { a }, raw) as i32 == comp_value(
            comp_of(raw),
            x as i32,
            a as i32,
            m as i32,
        ),
{
    lemma_comp_flags(raw);
    lemma_word_bits();
    let c = comp_of(raw);
    if c == 0x01B2 {
    }    else if c == 0x0182 {
    }    else if c == 0x0193 {
    }    else if c == 0x0187 {
    }
}

#[verifier::spinoff_prover]
#[verifier::rlimit(100)]
proof fn lemma_alu_group4(x: i16, a: i16, m: i16, raw: u16)
    requires
        comp_of(raw) == 0x0180 || comp_of(raw) == 0x0195 || comp_of(raw) == 0x01F0 || comp_of(raw) == 0x01F1,
    ensures
        alu(x, if flag(raw, 12) { m } else { a }, raw) as i32 == comp_value(
            comp_of(raw),
            x as i32,
            a as i32,
            m as i32,
        ),
{
    lemma_comp_flags(raw);
    lemma_word_bits();
    let c = comp_of(raw);
    if c == 0x0180 {
    }    else if c == 0x0195 {
    }    else if c == 0x01F0 {
    }    else if c == 0x01F1 {
    }
}

#[verifier::spinoff_prover]
#[verifier::rlimit(100)]
proof fn lemma_alu_group5(x: i16, a: i16, m: i16, raw: u16)
    requires
        comp_of(raw) == 0x01F3 || comp_of(raw) == 0x01F7 || comp_of(raw) == 0x01F2 || comp_of(raw) == 0x01C2,
    ensures
        alu(x, if flag(raw, 12) { m } else { a }, raw) as i32 == comp_value(
            comp_of(raw),
            x as i32,
            a as i32,
            m as i32,
        ),
{
    lemma_comp_flags(raw);
    lemma_word_bits();
    let c = comp_of(raw);
    if c == 0x01F3 {
    }    else if c == 0x01F7 {
    }    else if c == 0x01F2 {
    }    else if c == 0x01C2 {
    }
}

#[verifier::spinoff_prover]
#[verifier::rlimit(100)]
proof fn lemma_alu_group6(x: i16, a: i16, m: i16, raw: u16)
    requires
        comp_of(raw) == 0x01D3 || comp_of(raw) == 0x01C7 || comp_of(raw) == 0x01C0 || comp_of(raw) == 0x01D5,
    ensures
        alu(x, if flag(raw, 12) { m } else { a }, raw) as i32 == comp_value(
            comp_of(raw),
            x as i32,
            a as i32,
            m as i32,
        ),
{
    lemma_comp_flags(raw);
    lemma_word_bits();
    let c = comp_of(raw);
    if c == 0x01D3 {
    }    else if c == 0x01C7 {
    }    else if c == 0x01C0 {
    }    else if c == 0x01D5 {
    }
}

proof fn lemma_alu_matches(x: i16, a: i16, m: i16, raw: u16)
    requires
        known_comp(comp_of(raw)),
    ensures
        alu(x, if flag(raw, 12) { m } else { a }, raw) as i32 == comp_value(
            comp_of(raw),
            x as i32,
            a as i32,
            m as i32,
        ),
{
    let c = comp_of(raw);
    if c == 0x01AA || c == 0x01BF || c == 0x01BA || c == 0x018C {
        lemma_alu_group0(x, a, m, raw);
    }    else if c == 0x018D || c == 0x018F || c == 0x019F || c == 0x018E {
        lemma_alu_group1(x, a, m, raw);
    }    else if c == 0x01B0 || c == 0x01B1 || c == 0x01B3 || c == 0x01B7 {
        lemma_alu_group2(x, a, m, raw);
    }    else if c == 0x01B2 || c == 0x0182 || c == 0x0193 || c == 0x0187 {
        lemma_alu_group3(x, a, m, raw);
    }    else if c == 0x0180 || c == 0x0195 || c == 0x01F0 || c == 0x01F1 {
        lemma_alu_group4(x, a, m, raw);
    }    else if c == 0x01F3 || c == 0x01F7 || c == 0x01F2 || c == 0x01C2 {
        lemma_alu_group5(x, a, m, raw);
    }    else if c == 0x01D3 || c == 0x01C7 || c == 0x01C0 || c == 0x01D5 {
        lemma_alu_group6(x, a, m, raw);
    }
}

/// The frame with `v` pushed.
pub open spec fn pushed(g: WasmFrame, v: i32) -> WasmFrame {
    WasmFrame { stack: g.stack.push(v), ..g }
}

/// The M operand of mnemonic `c`: the memory word that A names where `c` reads M.
spec fn m_operand(c: u16, g: WasmFrame) -> i32 {
    if (c / 64) % 2 == 1 {
        g.memory[g.a as int]
    } else {
        0
    }
}

/// The frame can run the code of mnemonic `c` with M loaded as `dst_has_m` says: where
/// `c` reads M, A names a memory word, and the saved address is A's byte address.
spec fn comp_ready(c: u16, dst_has_m: bool, g: WasmFrame) -> bool {
    &&& g.branch is None
    &&& (c / 64) % 2 == 1 ==> {
        &&& 0 <= g.a <= 32767
        &&& g.a < g.memory.len()
        &&& dst_has_m ==> g.ram_address == 4 * g.a
    }
}

#[verifier::spinoff_prover]
#[verifier::rlimit(50)]
proof fn lemma_comp_runs_group0(c: u16, dst_has_m: bool, g: WasmFrame)
    requires
        c == 0x01AA || c == 0x01BF || c == 0x01BA,
        comp_ready(c, dst_has_m, g),
    ensures
        run_code(comp_code(c, load_m_code(dst_has_m)), g) == Some(
            pushed(g, comp_value(c, g.d, g.a, m_operand(c, g))),
        ),
{
    let st = g.stack;
    if c == 0x01AA {
        assert(comp_code(c, load_m_code(dst_has_m)) =~= seq![WasmInstr::I32Const(0)]);
        reveal_with_fuel(run_from, 2);
    } else if c == 0x01BF {
        assert(comp_code(c, load_m_code(dst_has_m)) =~= seq![WasmInstr::I32Const(1)]);
        reveal_with_fuel(run_from, 2);
    } else if c == 0x01BA {
        assert(comp_code(c, load_m_code(dst_has_m)) =~= seq![WasmInstr::I32Const(-1i32)]);
        reveal_with_fuel(run_from, 2);
    }
}

#[verifier::spinoff_prover]
#[verifier::rlimit(50)]
proof fn lemma_comp_runs_group1(c: u16, dst_has_m: bool, g: WasmFrame)
    requires
        c == 0x018C || c == 0x018D || c == 0x018F,
        comp_ready(c, dst_has_m, g),
    ensures
        run_code(comp_code(c, load_m_code(dst_has_m)), g) == Some(
            pushed(g, comp_value(c, g.d, g.a, m_operand(c, g))),
        ),
{
    let st = g.stack;
    if c == 0x018C {
        assert(comp_code(c, load_m_code(dst_has_m)) =~= seq![WasmInstr::LocalGet(WasmLocal::D)]);
        reveal_with_fuel(run_from, 2);
    } else if c == 0x018D {
        assert(comp_code(c, load_m_code(dst_has_m)) =~= seq![WasmInstr::I32Const(-1i32), WasmInstr::LocalGet(WasmLocal::D), WasmInstr::I32Xor]);
        reveal_with_fuel(run_from, 4);
        assert(st.push(-1i32).push(g.d).subrange(0, st.len() as int) =~= st);
    } else if c == 0x018F {
        assert(comp_code(c, load_m_code(dst_has_m)) =~= seq![WasmInstr::I32Const(0), WasmInstr::LocalGet(WasmLocal::D), WasmInstr::I32Sub, WasmInstr::I32Extend16S]);
        reveal_with_fuel(run_from, 5);
        assert(st.push(0i32).push(g.d).subrange(0, st.len() as int) =~= st);
        assert(st.push(i32_specs::wrapping_sub(0i32, g.d)).drop_last() =~= st);
    }
}

#[verifier::spinoff_prover]
#[verifier::rlimit(50)]
proof fn lemma_comp_runs_group2(c: u16, dst_has_m: bool, g: WasmFrame)
    requires
        c == 0x019F || c == 0x018E || c == 0x01B0,
        comp_ready(c, dst_has_m, g),
    ensures
        run_code(comp_code(c, load_m_code(dst_has_m)), g) == Some(
            pushed(g, comp_value(c, g.d, g.a, m_operand(c, g))),
        ),
{
    let st = g.stack;
    if c == 0x019F {
        assert(comp_code(c, load_m_code(dst_has_m)) =~= seq![WasmInstr::LocalGet(WasmLocal::D), WasmInstr::I32Const(1), WasmInstr::I32Add, WasmInstr::I32Extend16S]);
        reveal_with_fuel(run_from, 5);
        assert(st.push(g.d).push(1i32).subrange(0, st.len() as int) =~= st);
        assert(st.push(i32_specs::wrapping_add(g.d, 1i32)).drop_last() =~= st);
    } else if c == 0x018E {
        assert(comp_code(c, load_m_code(dst_has_m)) =~= seq![WasmInstr::LocalGet(WasmLocal::D), WasmInstr::I32Const(1), WasmInstr::I32Sub, WasmInstr::I32Extend16S]);
        reveal_with_fuel(run_from, 5);
        assert(st.push(g.d).push(1i32).subrange(0, st.len() as int) =~= st);
        assert(st.push(i32_specs::wrapping_sub(g.d, 1i32)).drop_last() =~= st);
    } else if c == 0x01B0 {
        assert(comp_code(c, load_m_code(dst_has_m)) =~= seq![WasmInstr::LocalGet(WasmLocal::A)]);
        reveal_with_fuel(run_from, 2);
    }
}

#[verifier::spinoff_prover]
#[verifier::rlimit(50)]
proof fn lemma_comp_runs_group3(c: u16, dst_has_m: bool, g: WasmFrame)
    requires
        c == 0x01B1 || c == 0x01B3 || c == 0x01B7,
        comp_ready(c, dst_has_m, g),
    ensures
        run_code(comp_code(c, load_m_code(dst_has_m)), g) == Some(
            pushed(g, comp_value(c, g.d, g.a, m_operand(c, g))),
        ),
{
    let st = g.stack;
    if c == 0x01B1 {
        assert(comp_code(c, load_m_code(dst_has_m)) =~= seq![WasmInstr::I32Const(-1i32), WasmInstr::LocalGet(WasmLocal::A), WasmInstr::I32Xor]);
        reveal_with_fuel(run_from, 4);
        assert(st.push(-1i32).push(g.a).subrange(0, st.len() as int) =~= st);
    } else if c == 0x01B3 {
        assert(comp_code(c, load_m_code(dst_has_m)) =~= seq![WasmInstr::I32Const(0), WasmInstr::LocalGet(WasmLocal::A), WasmInstr::I32Sub, WasmInstr::I32Extend16S]);
        reveal_with_fuel(run_from, 5);
        assert(st.push(0i32).push(g.a).subrange(0, st.len() as int) =~= st);
        assert(st.push(i32_specs::wrapping_sub(0i32, g.a)).drop_last() =~= st);
    } else if c == 0x01B7 {
        assert(comp_code(c, load_m_code(dst_has_m)) =~= seq![WasmInstr::LocalGet(WasmLocal::A), WasmInstr::I32Const(1), WasmInstr::I32Add, WasmInstr::I32Extend16S]);
        reveal_with_fuel(run_from, 5);
        assert(st.push(g.a).push(1i32).subrange(0, st.len() as int) =~= st);
        assert(st.push(i32_specs::wrapping_add(g.a, 1i32)).drop_last() =~= st);
    }
}

#[verifier::spinoff_prover]
#[verifier::rlimit(50)]
proof fn lemma_comp_runs_group4(c: u16, dst_has_m: bool, g: WasmFrame)
    requires
        c == 0x01B2 || c == 0x0182 || c == 0x0193,
        comp_ready(c, dst_has_m, g),
    ensures
        run_code(comp_code(c, load_m_code(dst_has_m)), g) == Some(
            pushed(g, comp_value(c, g.d, g.a, m_operand(c, g))),
        ),
{
    let st = g.stack;
    if c == 0x01B2 {
        assert(comp_code(c, load_m_code(dst_has_m)) =~= seq![WasmInstr::LocalGet(WasmLocal::A), WasmInstr::I32Const(1), WasmInstr::I32Sub, WasmInstr::I32Extend16S]);
        reveal_with_fuel(run_from, 5);
        assert(st.push(g.a).push(1i32).subrange(0, st.len() as int) =~= st);
        assert(st.push(i32_specs::wrapping_sub(g.a, 1i32)).drop_last() =~= st);
    } else if c == 0x0182 {
        assert(comp_code(c, load_m_code(dst_has_m)) =~= seq![WasmInstr::LocalGet(WasmLocal::D), WasmInstr::LocalGet(WasmLocal::A), WasmInstr::I32Add, WasmInstr::I32Extend16S]);
        reveal_with_fuel(run_from, 5);
        assert(st.push(g.d).push(g.a).subrange(0, st.len() as int) =~= st);
        assert(st.push(i32_specs::wrapping_add(g.d, g.a)).drop_last() =~= st);
    } else if c == 0x0193 {
        assert(comp_code(c, load_m_code(dst_has_m)) =~= seq![WasmInstr::LocalGet(WasmLocal::D), WasmInstr::LocalGet(WasmLocal::A), WasmInstr::I32Sub, WasmInstr::I32Extend16S]);
        reveal_with_fuel(run_from, 5);
        assert(st.push(g.d).push(g.a).subrange(0, st.len() as int) =~= st);
        assert(st.push(i32_specs::wrapping_sub(g.d, g.a)).drop_last() =~= st);
    }
}

#[verifier::spinoff_prover]
#[verifier::rlimit(100)]
proof fn lemma_comp_runs_group5(c: u16, dst_has_m: bool, g: WasmFrame)
    requires
        c == 0x0187 || c == 0x0180 || c == 0x0195,
        comp_ready(c, dst_has_m, g),
    ensures
        run_code(comp_code(c, load_m_code(dst_has_m)), g) == Some(
            pushed(g, comp_value(c, g.d, g.a, m_operand(c, g))),
        ),
{
    let st = g.stack;
    if c == 0x0187 {
        assert(comp_code(c, load_m_code(dst_has_m)) =~= seq![WasmInstr::LocalGet(WasmLocal::A), WasmInstr::LocalGet(WasmLocal::D), WasmInstr::I32Sub, WasmInstr::I32Extend16S]);
        reveal_with_fuel(run_from, 5);
        assert(st.push(g.a).push(g.d).subrange(0, st.len() as int) =~= st);
        assert(st.push(i32_specs::wrapping_sub(g.a, g.d)).drop_last() =~= st);
    } else if c == 0x0180 {
        assert(comp_code(c, load_m_code(dst_has_m)) =~= seq![WasmInstr::LocalGet(WasmLocal::D), WasmInstr::LocalGet(WasmLocal::A), WasmInstr::I32And]);
        reveal_with_fuel(run_from, 4);
        assert(st.push(g.d).push(g.a).subrange(0, st.len() as int) =~= st);
    } else if c == 0x0195 {
        assert(comp_code(c, load_m_code(dst_has_m)) =~= seq![WasmInstr::LocalGet(WasmLocal::D), WasmInstr::LocalGet(WasmLocal::A), WasmInstr::I32Or]);
        reveal_with_fuel(run_from, 4);
        assert(st.push(g.d).push(g.a).subrange(0, st.len() as int) =~= st);
    }
}

#[verifier::spinoff_prover]
#[verifier::rlimit(50)]
proof fn lemma_comp_runs_group6(c: u16, dst_has_m: bool, g: WasmFrame)
    requires
        c == 0x01F0,
        dst_has_m,
        comp_ready(c, dst_has_m, g),
    ensures
        run_code(comp_code(c, load_m_code(dst_has_m)), g) == Some(
            pushed(g, comp_value(c, g.d, g.a, m_operand(c, g))),
        ),
{
    let st = g.stack;
    lemma_shift_address(g.a);
    assert(i32_specs::wrapping_shl(g.a, 2i32 as u32) == 4 * g.a);
    assert(word_at(g.memory, (4 * g.a) as i32) == Some(g.a as int));
    assert(comp_code(c, load_m_code(dst_has_m)) =~= seq![WasmInstr::LocalGet(WasmLocal::RamAddress), WasmInstr::I32Load]);
    reveal_with_fuel(run_from, 3);
    assert(st.push(g.ram_address).drop_last() =~= st);
}

#[verifier::spinoff_prover]
#[verifier::rlimit(50)]
proof fn lemma_comp_runs_group7(c: u16, dst_has_m: bool, g: WasmFrame)
    requires
        c == 0x01F0,
        !dst_has_m,
        comp_ready(c, dst_has_m, g),
    ensures
        run_code(comp_code(c, load_m_code(dst_has_m)), g) == Some(
            pushed(g, comp_value(c, g.d, g.a, m_operand(c, g))),
        ),
{
    let st = g.stack;
    lemma_shift_address(g.a);
    assert(i32_specs::wrapping_shl(g.a, 2i32 as u32) == 4 * g.a);
    assert(word_at(g.memory, (4 * g.a) as i32) == Some(g.a as int));
    assert(comp_code(c, load_m_code(dst_has_m)) =~= seq![WasmInstr::LocalGet(WasmLocal::A), WasmInstr::I32Const(2), WasmInstr::I32Shl, WasmInstr::I32Load]);
    reveal_with_fuel(run_from, 5);
    assert(st.push(g.a).push(2i32).subrange(0, st.len() as int) =~= st);
    assert(st.push(i32_specs::wrapping_shl(g.a, 2i32 as u32)).drop_last() =~= st);
}

#[verifier::spinoff_prover]
#[verifier::rlimit(50)]
proof fn lemma_comp_runs_group8(c: u16, dst_has_m: bool, g: WasmFrame)
    requires
        c == 0x01F1,
        dst_has_m,
        comp_ready(c, dst_has_m, g),
    ensures
        run_code(comp_code(c, load_m_code(dst_has_m)), g) == Some(
            pushed(g, comp_value(c, g.d, g.a, m_operand(c, g))),
        ),
{
    let st = g.stack;
    lemma_shift_address(g.a);
    assert(i32_specs::wrapping_shl(g.a, 2i32 as u32) == 4 * g.a);
    assert(word_at(g.memory, (4 * g.a) as i32) == Some(g.a as int));
    assert(comp_code(c, load_m_code(dst_has_m)) =~= seq![WasmInstr::LocalGet(WasmLocal::RamAddress), WasmInstr::I32Load, WasmInstr::I32Const(-1i32), WasmInstr::I32Xor]);
    reveal_with_fuel(run_from, 5);
    assert(st.push(g.ram_address).drop_last() =~= st);
    assert(st.push(g.memory[g.a as int]).push(-1i32).subrange(0, st.len() as int) =~= st);
}

#[verifier::spinoff_prover]
#[verifier::rlimit(50)]
proof fn lemma_comp_runs_group9(c: u16, dst_has_m: bool, g: WasmFrame)
    requires
        c == 0x01F1,
        !dst_has_m,
        comp_ready(c, dst_has_m, g),
    ensures
        run_code(comp_code(c, load_m_code(dst_has_m)), g) == Some(
            pushed(g, comp_value(c, g.d, g.a, m_operand(c, g))),
        ),
{
    let st = g.stack;
    lemma_shift_address(g.a);
    assert(i32_specs::wrapping_shl(g.a, 2i32 as u32) == 4 * g.a);
    assert(word_at(g.memory, (4 * g.a) as i32) == Some(g.a as int));
    assert(comp_code(c, load_m_code(dst_has_m)) =~= seq![WasmInstr::LocalGet(WasmLocal::A), WasmInstr::I32Const(2), WasmInstr::I32Shl, WasmInstr::I32Load, WasmInstr::I32Const(-1i32), WasmInstr::I32Xor]);
    reveal_with_fuel(run_from, 7);
    assert(st.push(g.a).push(2i32).subrange(0, st.len() as int) =~= st);
    assert(st.push(i32_specs::wrapping_shl(g.a, 2i32 as u32)).drop_last() =~= st);
    assert(st.push(g.memory[g.a as int]).push(-1i32).subrange(0, st.len() as int) =~= st);
}

#[verifier::spinoff_prover]
#[verifier::rlimit(50)]
proof fn lemma_comp_runs_group10(c: u16, dst_has_m: bool, g: WasmFrame)
    requires
        c == 0x01F3,
        dst_has_m,
        comp_ready(c, dst_has_m, g),
    ensures
        run_code(comp_code(c, load_m_code(dst_has_m)), g) == Some(
            pushed(g, comp_value(c, g.d, g.a, m_operand(c, g))),
        ),
{
    let st = g.stack;
    lemma_shift_address(g.a);
    assert(i32_specs::wrapping_shl(g.a, 2i32 as u32) == 4 * g.a);
    assert(word_at(g.memory, (4 * g.a) as i32) == Some(g.a as int));
    assert(comp_code(c, load_m_code(dst_has_m)) =~= seq![WasmInstr::I32Const(0), WasmInstr::LocalGet(WasmLocal::RamAddress), WasmInstr::I32Load, WasmInstr::I32Sub, WasmInstr::I32Extend16S]);
    reveal_with_fuel(run_from, 6);
    assert(st.push(0i32).push(g.ram_address).drop_last() =~= st.push(0i32));
    assert(st.push(0i32).push(g.memory[g.a as int]).subrange(0, st.len() as int) =~= st);
    assert(st.push(i32_specs::wrapping_sub(0i32, g.memory[g.a as int])).drop_last() =~= st);
}

#[verifier::spinoff_prover]
#[verifier::rlimit(50)]
proof fn lemma_comp_runs_group11(c: u16, dst_has_m: bool, g: WasmFrame)
    requires
        c == 0x01F3,
        !dst_has_m,
        comp_ready(c, dst_has_m, g),
    ensures
        run_code(comp_code(c, load_m_code(dst_has_m)), g) == Some(
            pushed(g, comp_value(c, g.d, g.a, m_operand(c, g))),
        ),
{
    let st = g.stack;
    lemma_shift_address(g.a);
    assert(i32_specs::wrapping_shl(g.a, 2i32 as u32) == 4 * g.a);
    assert(word_at(g.memory, (4 * g.a) as i32) == Some(g.a as int));
    assert(comp_code(c, load_m_code(dst_has_m)) =~= seq![WasmInstr::I32Const(0), WasmInstr::LocalGet(WasmLocal::A), WasmInstr::I32Const(2), WasmInstr::I32Shl, WasmInstr::I32Load, WasmInstr::I32Sub, WasmInstr::I32Extend16S]);
    reveal_with_fuel(run_from, 8);
    assert(st.push(0i32).push(g.a).push(2i32).subrange(0, st.push(0i32).len() as int) =~= st.push(0i32));
    assert(st.push(0i32).push(i32_specs::wrapping_shl(g.a, 2i32 as u32)).drop_last() =~= st.push(0i32));
    assert(st.push(0i32).push(g.memory[g.a as int]).subrange(0, st.len() as int) =~= st);
    assert(st.push(i32_specs::wrapping_sub(0i32, g.memory[g.a as int])).drop_last() =~= st);
}

#[verifier::spinoff_prover]
#[verifier::rlimit(50)]
proof fn lemma_comp_runs_group12(c: u16, dst_has_m: bool, g: WasmFrame)
    requires
        c == 0x01F7,
        dst_has_m,
        comp_ready(c, dst_has_m, g),
    ensures
        run_code(comp_code(c, load_m_code(dst_has_m)), g) == Some(
            pushed(g, comp_value(c, g.d, g.a, m_operand(c, g))),
        ),
{
    let st = g.stack;
    lemma_shift_address(g.a);
    assert(i32_specs::wrapping_shl(g.a, 2i32 as u32) == 4 * g.a);
    assert(word_at(g.memory, (4 * g.a) as i32) == Some(g.a as int));
    assert(comp_code(c, load_m_code(dst_has_m)) =~= seq![WasmInstr::LocalGet(WasmLocal::RamAddress), WasmInstr::I32Load, WasmInstr::I32Const(1), WasmInstr::I32Add, WasmInstr::I32Extend16S]);
    reveal_with_fuel(run_from, 6);
    assert(st.push(g.ram_address).drop_last() =~= st);
    assert(st.push(g.memory[g.a as int]).push(1i32).subrange(0, st.len() as int) =~= st);
    assert(st.push(i32_specs::wrapping_add(g.memory[g.a as int], 1i32)).drop_last() =~= st);
}

#[verifier::spinoff_prover]
#[verifier::rlimit(50)]
proof fn lemma_comp_runs_group13(c: u16, dst_has_m: bool, g: WasmFrame)
    requires
        c == 0x01F7,
        !dst_has_m,
        comp_ready(c, dst_has_m, g),
    ensures
        run_code(comp_code(c, load_m_code(dst_has_m)), g) == Some(
            pushed(g, comp_value(c, g.d, g.a, m_operand(c, g))),
        ),
{
    let st = g.stack;
    lemma_shift_address(g.a);
    assert(i32_specs::wrapping_shl(g.a, 2i32 as u32) == 4 * g.a);
    assert(word_at(g.memory, (4 * g.a) as i32) == Some(g.a as int));
    assert(comp_code(c, load_m_code(dst_has_m)) =~= seq![WasmInstr::LocalGet(WasmLocal::A), WasmInstr::I32Const(2), WasmInstr::I32Shl, WasmInstr::I32Load, WasmInstr::I32Const(1), WasmInstr::I32Add, WasmInstr::I32Extend16S]);
    reveal_with_fuel(run_from, 8);
    assert(st.push(g.a).push(2i32).subrange(0, st.len() as int) =~= st);
    assert(st.push(i32_specs::wrapping_shl(g.a, 2i32 as u32)).drop_last() =~= st);
    assert(st.push(g.memory[g.a as int]).push(1i32).subrange(0, st.len() as int) =~= st);
    assert(st.push(i32_specs::wrapping_add(g.memory[g.a as int], 1i32)).drop_last() =~= st);
}

#[verifier::spinoff_prover]
#[verifier::rlimit(50)]
proof fn lemma_comp_runs_group14(c: u16, dst_has_m: bool, g: WasmFrame)
    requires
        c == 0x01F2,
        dst_has_m,
        comp_ready(c, dst_has_m, g),
    ensures
        run_code(comp_code(c, load_m_code(dst_has_m)), g) == Some(
            pushed(g, comp_value(c, g.d, g.a, m_operand(c, g))),
        ),
{
    let st = g.stack;
    lemma_shift_address(g.a);
    assert(i32_specs::wrapping_shl(g.a, 2i32 as u32) == 4 * g.a);
    assert(word_at(g.memory, (4 * g.a) as i32) == Some(g.a as int));
    assert(comp_code(c, load_m_code(dst_has_m)) =~= seq![WasmInstr::LocalGet(WasmLocal::RamAddress), WasmInstr::I32Load, WasmInstr::I32Const(1), WasmInstr::I32Sub, WasmInstr::I32Extend16S]);
    reveal_with_fuel(run_from, 6);
    assert(st.push(g.ram_address).drop_last() =~= st);
    assert(st.push(g.memory[g.a as int]).push(1i32).subrange(0, st.len() as int) =~= st);
    assert(st.push(i32_specs::wrapping_sub(g.memory[g.a as int], 1i32)).drop_last() =~= st);
}

#[verifier::spinoff_prover]
#[verifier::rlimit(50)]
proof fn lemma_comp_runs_group15(c: u16, dst_has_m: bool, g: WasmFrame)
    requires
        c == 0x01F2,
        !dst_has_m,
        comp_ready(c, dst_has_m, g),
    ensures
        run_code(comp_code(c, load_m_code(dst_has_m)), g) == Some(
            pushed(g, comp_value(c, g.d, g.a, m_operand(c, g))),
        ),
{
    let st = g.stack;
    lemma_shift_address(g.a);
    assert(i32_specs::wrapping_shl(g.a, 2i32 as u32) == 4 * g.a);
    assert(word_at(g.memory, (4 * g.a) as i32) == Some(g.a as int));
    assert(comp_code(c, load_m_code(dst_has_m)) =~= seq![WasmInstr::LocalGet(WasmLocal::A), WasmInstr::I32Const(2), WasmInstr::I32Shl, WasmInstr::I32Load, WasmInstr::I32Const(1), WasmInstr::I32Sub, WasmInstr::I32Extend16S]);
    reveal_with_fuel(run_from, 8);
    assert(st.push(g.a).push(2i32).subrange(0, st.len() as int) =~= st);
    assert(st.push(i32_specs::wrapping_shl(g.a, 2i32 as u32)).drop_last() =~= st);
    assert(st.push(g.memory[g.a as int]).push(1i32).subrange(0, st.len() as int) =~= st);
    assert(st.push(i32_specs::wrapping_sub(g.memory[g.a as int], 1i32)).drop_last() =~= st);
}

#[verifier::spinoff_prover]
#[verifier::rlimit(50)]
proof fn lemma_comp_runs_group16(c: u16, dst_has_m: bool, g: WasmFrame)
    requires
        c == 0x01C2,
        dst_has_m,
        comp_ready(c, dst_has_m, g),
    ensures
        run_code(comp_code(c, load_m_code(dst_has_m)), g) == Some(
            pushed(g, comp_value(c, g.d, g.a, m_operand(c, g))),
        ),
{
    let st = g.stack;
    lemma_shift_address(g.a);
    assert(i32_specs::wrapping_shl(g.a, 2i32 as u32) == 4 * g.a);
    assert(word_at(g.memory, (4 * g.a) as i32) == Some(g.a as int));
    assert(comp_code(c, load_m_code(dst_has_m)) =~= seq![WasmInstr::LocalGet(WasmLocal::D), WasmInstr::LocalGet(WasmLocal::RamAddress), WasmInstr::I32Load, WasmInstr::I32Add, WasmInstr::I32Extend16S]);
    reveal_with_fuel(run_from, 6);
    assert(st.push(g.d).push(g.ram_address).drop_last() =~= st.push(g.d));
    assert(st.push(g.d).push(g.memory[g.a as int]).subrange(0, st.len() as int) =~= st);
    assert(st.push(i32_specs::wrapping_add(g.d, g.memory[g.a as int])).drop_last() =~= st);
}

#[verifier::spinoff_prover]
#[verifier::rlimit(50)]
proof fn lemma_comp_runs_group17(c: u16, dst_has_m: bool, g: WasmFrame)
    requires
        c == 0x01C2,
        !dst_has_m,
        comp_ready(c, dst_has_m, g),
    ensures
        run_code(comp_code(c, load_m_code(dst_has_m)), g) == Some(
            pushed(g, comp_value(c, g.d, g.a, m_operand(c, g))),
        ),
{
    let st = g.stack;
    lemma_shift_address(g.a);
    assert(i32_specs::wrapping_shl(g.a, 2i32 as u32) == 4 * g.a);
    assert(word_at(g.memory, (4 * g.a) as i32) == Some(g.a as int));
    assert(comp_code(c, load_m_code(dst_has_m)) =~= seq![WasmInstr::LocalGet(WasmLocal::D), WasmInstr::LocalGet(WasmLocal::A), WasmInstr::I32Const(2), WasmInstr::I32Shl, WasmInstr::I32Load, WasmInstr::I32Add, WasmInstr::I32Extend16S]);
    reveal_with_fuel(run_from, 8);
    assert(st.push(g.d).push(g.a).push(2i32).subrange(0, st.push(g.d).len() as int) =~= st.push(g.d));
    assert(st.push(g.d).push(i32_specs::wrapping_shl(g.a, 2i32 as u32)).drop_last() =~= st.push(g.d));
    assert(st.push(g.d).push(g.memory[g.a as int]).subrange(0, st.len() as int) =~= st);
    assert(st.push(i32_specs::wrapping_add(g.d, g.memory[g.a as int])).drop_last() =~= st);
}

#[verifier::spinoff_prover]
#[verifier::rlimit(50)]
proof fn lemma_comp_runs_group18(c: u16, dst_has_m: bool, g: WasmFrame)
    requires
        c == 0x01D3,
        dst_has_m,
        comp_ready(c, dst_has_m, g),
    ensures
        run_code(comp_code(c, load_m_code(dst_has_m)), g) == Some(
            pushed(g, comp_value(c, g.d, g.a, m_operand(c, g))),
        ),
{
    let st = g.stack;
    lemma_shift_address(g.a);
    assert(i32_specs::wrapping_shl(g.a, 2i32 as u32) == 4 * g.a);
    assert(word_at(g.memory, (4 * g.a) as i32) == Some(g.a as int));
    assert(comp_code(c, load_m_code(dst_has_m)) =~= seq![WasmInstr::LocalGet(WasmLocal::D), WasmInstr::LocalGet(WasmLocal::RamAddress), WasmInstr::I32Load, WasmInstr::I32Sub, WasmInstr::I32Extend16S]);
    reveal_with_fuel(run_from, 6);
    assert(st.push(g.d).push(g.ram_address).drop_last() =~= st.push(g.d));
    assert(st.push(g.d).push(g.memory[g.a as int]).subrange(0, st.len() as int) =~= st);
    assert(st.push(i32_specs::wrapping_sub(g.d, g.memory[g.a as int])).drop_last() =~= st);
}

#[verifier::spinoff_prover]
#[verifier::rlimit(50)]
proof fn lemma_comp_runs_group19(c: u16, dst_has_m: bool, g: WasmFrame)
    requires
        c == 0x01D3,
        !dst_has_m,
        comp_ready(c, dst_has_m, g),
    ensures
        run_code(comp_code(c, load_m_code(dst_has_m)), g) == Some(
            pushed(g, comp_value(c, g.d, g.a, m_operand(c, g))),
        ),
{
    let st = g.stack;
    lemma_shift_address(g.a);
    assert(i32_specs::wrapping_shl(g.a, 2i32 as u32) == 4 * g.a);
    assert(word_at(g.memory, (4 * g.a) as i32) == Some(g.a as int));
    assert(comp_code(c, load_m_code(dst_has_m)) =~= seq![WasmInstr::LocalGet(WasmLocal::D), WasmInstr::LocalGet(WasmLocal::A), WasmInstr::I32Const(2), WasmInstr::I32Shl, WasmInstr::I32Load, WasmInstr::I32Sub, WasmInstr::I32Extend16S]);
    reveal_with_fuel(run_from, 8);
    assert(st.push(g.d).push(g.a).push(2i32).subrange(0, st.push(g.d).len() as int) =~= st.push(g.d));
    assert(st.push(g.d).push(i32_specs::wrapping_shl(g.a, 2i32 as u32)).drop_last() =~= st.push(g.d));
    assert(st.push(g.d).push(g.memory[g.a as int]).subrange(0, st.len() as int) =~= st);
    assert(st.push(i32_specs::wrapping_sub(g.d, g.memory[g.a as int])).drop_last() =~= st);
}

#[verifier::spinoff_prover]
#[verifier::rlimit(50)]
proof fn lemma_comp_runs_group20(c: u16, dst_has_m: bool, g: WasmFrame)
    requires
        c == 0x01C7,
        dst_has_m,
        comp_ready(c, dst_has_m, g),
    ensures
        run_code(comp_code(c, load_m_code(dst_has_m)), g) == Some(
            pushed(g, comp_value(c, g.d, g.a, m_operand(c, g))),
        ),
{
    let st = g.stack;
    lemma_shift_address(g.a);
    assert(i32_specs::wrapping_shl(g.a, 2i32 as u32) == 4 * g.a);
    assert(word_at(g.memory, (4 * g.a) as i32) == Some(g.a as int));
    assert(comp_code(c, load_m_code(dst_has_m)) =~= seq![WasmInstr::LocalGet(WasmLocal::RamAddress), WasmInstr::I32Load, WasmInstr::LocalGet(WasmLocal::D), WasmInstr::I32Sub, WasmInstr::I32Extend16S]);
    reveal_with_fuel(run_from, 6);
    assert(st.push(g.ram_address).drop_last() =~= st);
    assert(st.push(g.memory[g.a as int]).push(g.d).subrange(0, st.len() as int) =~= st);
    assert(st.push(i32_specs::wrapping_sub(g.memory[g.a as int], g.d)).drop_last() =~= st);
}

#[verifier::spinoff_prover]
#[verifier::rlimit(50)]
proof fn lemma_comp_runs_group21(c: u16, dst_has_m: bool, g: WasmFrame)
    requires
        c == 0x01C7,
        !dst_has_m,
        comp_ready(c, dst_has_m, g),
    ensures
        run_code(comp_code(c, load_m_code(dst_has_m)), g) == Some(
            pushed(g, comp_value(c, g.d, g.a, m_operand(c, g))),
        ),
{
    let st = g.stack;
    lemma_shift_address(g.a);
    assert(i32_specs::wrapping_shl(g.a, 2i32 as u32) == 4 * g.a);
    assert(word_at(g.memory, (4 * g.a) as i32) == Some(g.a as int));
    assert(comp_code(c, load_m_code(dst_has_m)) =~= seq![WasmInstr::LocalGet(WasmLocal::A), WasmInstr::I32Const(2), WasmInstr::I32Shl, WasmInstr::I32Load, WasmInstr::LocalGet(WasmLocal::D), WasmInstr::I32Sub, WasmInstr::I32Extend16S]);
    reveal_with_fuel(run_from, 8);
    assert(st.push(g.a).push(2i32).subrange(0, st.len() as int) =~= st);
    assert(st.push(i32_specs::wrapping_shl(g.a, 2i32 as u32)).drop_last() =~= st);
    assert(st.push(g.memory[g.a as int]).push(g.d).subrange(0, st.len() as int) =~= st);
    assert(st.push(i32_specs::wrapping_sub(g.memory[g.a as int], g.d)).drop_last() =~= st);
}

#[verifier::spinoff_prover]
#[verifier::rlimit(50)]
proof fn lemma_comp_runs_group22(c: u16, dst_has_m: bool, g: WasmFrame)
    requires
        c == 0x01C0,
        dst_has_m,
        comp_ready(c, dst_has_m, g),
    ensures
        run_code(comp_code(c, load_m_code(dst_has_m)), g) == Some(
            pushed(g, comp_value(c, g.d, g.a, m_operand(c, g))),
        ),
{
    let st = g.stack;
    lemma_shift_address(g.a);
    assert(i32_specs::wrapping_shl(g.a, 2i32 as u32) == 4 * g.a);
    assert(word_at(g.memory, (4 * g.a) as i32) == Some(g.a as int));
    assert(comp_code(c, load_m_code(dst_has_m)) =~= seq![WasmInstr::LocalGet(WasmLocal::D), WasmInstr::LocalGet(WasmLocal::RamAddress), WasmInstr::I32Load, WasmInstr::I32And]);
    reveal_with_fuel(run_from, 5);
    assert(st.push(g.d).push(g.ram_address).drop_last() =~= st.push(g.d));
    assert(st.push(g.d).push(g.memory[g.a as int]).subrange(0, st.len() as int) =~= st);
}

#[verifier::spinoff_prover]
#[verifier::rlimit(50)]
proof fn lemma_comp_runs_group23(c: u16, dst_has_m: bool, g: WasmFrame)
    requires
        c == 0x01C0,
        !dst_has_m,
        comp_ready(c, dst_has_m, g),
    ensures
        run_code(comp_code(c, load_m_code(dst_has_m)), g) == Some(
            pushed(g, comp_value(c, g.d, g.a, m_operand(c, g))),
        ),
{
    let st = g.stack;
    lemma_shift_address(g.a);
    assert(i32_specs::wrapping_shl(g.a, 2i32 as u32) == 4 * g.a);
    assert(word_at(g.memory, (4 * g.a) as i32) == Some(g.a as int));
    assert(comp_code(c, load_m_code(dst_has_m)) =~= seq![WasmInstr::LocalGet(WasmLocal::D), WasmInstr::LocalGet(WasmLocal::A), WasmInstr::I32Const(2), WasmInstr::I32Shl, WasmInstr::I32Load, WasmInstr::I32And]);
    reveal_with_fuel(run_from, 7);
    assert(st.push(g.d).push(g.a).push(2i32).subrange(0, st.push(g.d).len() as int) =~= st.push(g.d));
    assert(st.push(g.d).push(i32_specs::wrapping_shl(g.a, 2i32 as u32)).drop_last() =~= st.push(g.d));
    assert(st.push(g.d).push(g.memory[g.a as int]).subrange(0, st.len() as int) =~= st);
}

#[verifier::spinoff_prover]
#[verifier::rlimit(50)]
proof fn lemma_comp_runs_group24(c: u16, dst_has_m: bool, g: WasmFrame)
    requires
        c == 0x01D5,
        dst_has_m,
        comp_ready(c, dst_has_m, g),
    ensures
        run_code(comp_code(c, load_m_code(dst_has_m)), g) == Some(
            pushed(g, comp_value(c, g.d, g.a, m_operand(c, g))),
        ),
{
    let st = g.stack;
    lemma_shift_address(g.a);
    assert(i32_specs::wrapping_shl(g.a, 2i32 as u32) == 4 * g.a);
    assert(word_at(g.memory, (4 * g.a) as i32) == Some(g.a as int));
    assert(comp_code(c, load_m_code(dst_has_m)) =~= seq![WasmInstr::LocalGet(WasmLocal::D), WasmInstr::LocalGet(WasmLocal::RamAddress), WasmInstr::I32Load, WasmInstr::I32Or]);
    reveal_with_fuel(run_from, 5);
    assert(st.push(g.d).push(g.ram_address).drop_last() =~= st.push(g.d));
    assert(st.push(g.d).push(g.memory[g.a as int]).subrange(0, st.len() as int) =~= st);
}

#[verifier::spinoff_prover]
#[verifier::rlimit(50)]
proof fn lemma_comp_runs_group25(c: u16, dst_has_m: bool, g: WasmFrame)
    requires
        c == 0x01D5,
        !dst_has_m,
        comp_ready(c, dst_has_m, g),
    ensures
        run_code(comp_code(c, load_m_code(dst_has_m)), g) == Some(
            pushed(g, comp_value(c, g.d, g.a, m_operand(c, g))),
        ),
{
    let st = g.stack;
    lemma_shift_address(g.a);
    assert(i32_specs::wrapping_shl(g.a, 2i32 as u32) == 4 * g.a);
    assert(word_at(g.memory, (4 * g.a) as i32) == Some(g.a as int));
    assert(comp_code(c, load_m_code(dst_has_m)) =~= seq![WasmInstr::LocalGet(WasmLocal::D), WasmInstr::LocalGet(WasmLocal::A), WasmInstr::I32Const(2), WasmInstr::I32Shl, WasmInstr::I32Load, WasmInstr::I32Or]);
    reveal_with_fuel(run_from, 7);
    assert(st.push(g.d).push(g.a).push(2i32).subrange(0, st.push(g.d).len() as int) =~= st.push(g.d));
    assert(st.push(g.d).push(i32_specs::wrapping_shl(g.a, 2i32 as u32)).drop_last() =~= st.push(g.d));
    assert(st.push(g.d).push(g.memory[g.a as int]).subrange(0, st.len() as int) =~= st);
}

/// The code of a known mnemonic pushes the value that `comp_value` gives.
proof fn lemma_comp_runs(c: u16, dst_has_m: bool, g: WasmFrame)
    requires
        known_comp(c),
        comp_ready(c, dst_has_m, g),
    ensures
        run_code(comp_code(c, load_m_code(dst_has_m)), g) == Some(
            pushed(g, comp_value(c, g.d, g.a, m_operand(c, g))),
        ),
{
    if c == 0x01AA || c == 0x01BF || c == 0x01BA {
        lemma_comp_runs_group0(c, dst_has_m, g);
    } else if c == 0x018C || c == 0x018D || c == 0x018F {
        lemma_comp_runs_group1(c, dst_has_m, g);
    } else if c == 0x019F || c == 0x018E || c == 0x01B0 {
        lemma_comp_runs_group2(c, dst_has_m, g);
    } else if c == 0x01B1 || c == 0x01B3 || c == 0x01B7 {
        lemma_comp_runs_group3(c, dst_has_m, g);
    } else if c == 0x01B2 || c == 0x0182 || c == 0x0193 {
        lemma_comp_runs_group4(c, dst_has_m, g);
    } else if c == 0x0187 || c == 0x0180 || c == 0x0195 {
        lemma_comp_runs_group5(c, dst_has_m, g);
    } else if (c == 0x01F0) && dst_has_m {
        lemma_comp_runs_group6(c, dst_has_m, g);
    } else if (c == 0x01F0) && !dst_has_m {
        lemma_comp_runs_group7(c, dst_has_m, g);
    } else if (c == 0x01F1) && dst_has_m {
        lemma_comp_runs_group8(c, dst_has_m, g);
    } else if (c == 0x01F1) && !dst_has_m {
        lemma_comp_runs_group9(c, dst_has_m, g);
    } else if (c == 0x01F3) && dst_has_m {
        lemma_comp_runs_group10(c, dst_has_m, g);
    } else if (c == 0x01F3) && !dst_has_m {
        lemma_comp_runs_group11(c, dst_has_m, g);
    } else if (c == 0x01F7) && dst_has_m {
        lemma_comp_runs_group12(c, dst_has_m, g);
    } else if (c == 0x01F7) && !dst_has_m {
        lemma_comp_runs_group13(c, dst_has_m, g);
    } else if (c == 0x01F2) && dst_has_m {
        lemma_comp_runs_group14(c, dst_has_m, g);
    } else if (c == 0x01F2) && !dst_has_m {
        lemma_comp_runs_group15(c, dst_has_m, g);
    } else if (c == 0x01C2) && dst_has_m {
        lemma_comp_runs_group16(c, dst_has_m, g);
    } else if (c == 0x01C2) && !dst_has_m {
        lemma_comp_runs_group17(c, dst_has_m, g);
    } else if (c == 0x01D3) && dst_has_m {
        lemma_comp_runs_group18(c, dst_has_m, g);
    } else if (c == 0x01D3) && !dst_has_m {
        lemma_comp_runs_group19(c, dst_has_m, g);
    } else if (c == 0x01C7) && dst_has_m {
        lemma_comp_runs_group20(c, dst_has_m, g);
    } else if (c == 0x01C7) && !dst_has_m {
        lemma_comp_runs_group21(c, dst_has_m, g);
    } else if (c == 0x01C0) && dst_has_m {
        lemma_comp_runs_group22(c, dst_has_m, g);
    } else if (c == 0x01C0) && !dst_has_m {
        lemma_comp_runs_group23(c, dst_has_m, g);
    } else if (c == 0x01D5) && dst_has_m {
        lemma_comp_runs_group24(c, dst_has_m, g);
    } else if (c == 0x01D5) && !dst_has_m {
        lemma_comp_runs_group25(c, dst_has_m, g);
    }
}

/// The frame holds the Hack registers and RAM: an empty stack, no branch taken, A and D in
/// their locals (sign-extended), and RAM word `i` in memory word `i`.
pub open spec fn holds_state(f: WasmFrame, s: HackState) -> bool {
    &&& f.stack.len() == 0
    &&& f.branch is None
    &&& f.a == s.a as i32
    &&& f.d == s.d as i32
    &&& s.ram.len() <= f.memory.len()
    &&& forall|i: int| 0 <= i < s.ram.len() ==> f.memory[i] == s.ram[i] as i32
}

/// The instruction at PC reads and writes M only where A names a RAM word.
pub open spec fn m_in_range(s: HackState) -> bool {
    let raw = current_bits(s);
    is_c_instruction(raw) && (flag(raw, 12) || flag(raw, 3)) ==> s.a >= 0
}

/// A jump that tests the computed value.
pub open spec fn conditional_jump(raw: u16) -> bool {
    jump_of_code(raw & 7) != JumpCondition::NoJump && jump_of_code(raw & 7) != JumpCondition::JMP
}

proof fn lemma_save(raw: u16, target: BranchTarget, f: WasmFrame)
    requires
        f.branch is None,
        f.stack.len() == 0,
    ensures
        run_code(save_target_code(raw, target), f) == Some(
            if target is Loop && jump_of_code(raw & 7) != JumpCondition::NoJump {
                WasmFrame { jump_target: f.a, ..f }
            } else {
                f
            },
        ),
{
    reveal_with_fuel(run_from, 3);
    assert(f.stack.push(f.a).drop_last() =~= f.stack);
}

/// The frame after the value of the C-instruction at PC is computed: the address of M
/// (where M is a destination) and the value on the stack.
spec fn value_frame(s: HackState, f: WasmFrame) -> WasmFrame {
    let raw = current_bits(s);
    let address = (4 * s.a) as i32;
    WasmFrame {
        stack: (if flag(raw, 3) { seq![address] } else { seq![] }).push(alu_output(s) as i32),
        ram_address: if flag(raw, 3) && flag(raw, 12) { address } else { f.ram_address },
        ..f
    }
}

proof fn lemma_address(raw: u16, f: WasmFrame)
    requires
        f.branch is None,
        f.stack.len() == 0,
        -32768 <= f.a <= 32767,
    ensures
        run_code(address_code(raw), f) == Some(
            if flag(raw, 3) {
                WasmFrame {
                    stack: seq![(4 * f.a) as i32],
                    ram_address: if flag(raw, 12) { (4 * f.a) as i32 } else { f.ram_address },
                    ..f
                }
            } else {
                f
            },
        ),
{
    if flag(raw, 3) {
        lemma_shift_address(f.a);
        reveal_with_fuel(run_from, 5);
        assert(f.stack =~= Seq::<i32>::empty());
        assert(seq![f.a].push(2i32).subrange(0, 0) =~= Seq::<i32>::empty());
    }
}

#[verifier::spinoff_prover]
proof fn lemma_value(s: HackState, f: WasmFrame)
    requires
        machine_wf(s),
        0 <= s.pc,
        is_c_instruction(current_bits(s)),
        compilable(current_bits(s)),
        m_in_range(s),
        holds_state(f, s),
    ensures
        run_code(value_code(current_bits(s)), f) == Some(
            if result_users(current_bits(s)) > 0 {
                value_frame(s, f)
            } else {
                f
            },
        ),
{
    let raw = current_bits(s);
    if result_users(raw) > 0 {
        let c = comp_of(raw);
        lemma_comp_flags(raw);
        let address = (4 * s.a) as i32;
        let dst_has_m = flag(raw, 3);
        let g = if dst_has_m {
            WasmFrame {
                stack: seq![address],
                ram_address: if flag(raw, 12) { address } else { f.ram_address },
                ..f
            }
        } else {
            f
        };
        lemma_run_concat(address_code(raw), comp_code(c, load_m_code(dst_has_m)), f);
        lemma_address(raw, f);
        lemma_comp_runs(c, dst_has_m, g);
        let m: i16 = if flag(raw, 12) { s.ram[s.a as int] } else { 0i16 };
        lemma_alu_matches(s.d, s.a, m, raw);
        assert(m_operand(c, g) == m as i32);
        assert(g.stack.push(alu_output(s) as i32) =~= value_frame(s, f).stack);
    }
}

/// What the code that stores the value leaves: the value on the stack only for a
/// conditional jump, A, D and M written as the destination bits say, and the other locals
/// but the scratch `Result` unchanged.
spec fn stored(s: HackState, g: WasmFrame, h: WasmFrame) -> bool {
    let raw = current_bits(s);
    let out = alu_output(s) as i32;
    &&& h.stack == (if conditional_jump(raw) { seq![out] } else { seq![] })
    &&& h.a == (if flag(raw, 5) { out } else { g.a })
    &&& h.d == (if flag(raw, 4) { out } else { g.d })
    &&& h.memory == (if flag(raw, 3) { g.memory.update(s.a as int, out) } else { g.memory })
    &&& h.ticks == g.ticks
    &&& h.jump_target == g.jump_target
    &&& h.ram_address == g.ram_address
    &&& h.branch is None
}

#[verifier::spinoff_prover]
proof fn lemma_dest_a_d(s: HackState, g: WasmFrame)
    requires
        machine_wf(s),
        0 <= s.pc,
        is_c_instruction(current_bits(s)),
        m_in_range(s),
        g.branch is None,
        s.ram.len() <= g.memory.len(),
        g.stack == (if result_users(current_bits(s)) > 0 {
            (if flag(current_bits(s), 3) {
                seq![(4 * s.a) as i32]
            } else {
                seq![]
            }).push(alu_output(s) as i32)
        } else {
            seq![]
        }),
        flag(current_bits(s), 5),
        flag(current_bits(s), 4),
    ensures
        run_code(dest_code(current_bits(s)), g) matches Some(h) && stored(s, g, h),
{
    let raw = current_bits(s);
    let j = jump_of_code(raw & 7);
    let cond = j != JumpCondition::NoJump && j != JumpCondition::JMP;
    if flag(raw, 3) && cond {
        assert(dest_code(raw) =~= seq![WasmInstr::LocalTee(WasmLocal::A), WasmInstr::LocalTee(WasmLocal::D), WasmInstr::LocalTee(WasmLocal::Result), WasmInstr::I32Store, WasmInstr::LocalGet(WasmLocal::Result)]);
        reveal_with_fuel(run_from, 6);
        assert(word_at(g.memory, (4 * s.a) as i32) == Some(s.a as int));
        assert(g.stack.subrange(0, g.stack.len() - 2) =~= Seq::<i32>::empty());
    } else if flag(raw, 3) && !cond {
        assert(dest_code(raw) =~= seq![WasmInstr::LocalTee(WasmLocal::A), WasmInstr::LocalTee(WasmLocal::D), WasmInstr::I32Store]);
        reveal_with_fuel(run_from, 4);
        assert(word_at(g.memory, (4 * s.a) as i32) == Some(s.a as int));
        assert(g.stack.subrange(0, g.stack.len() - 2) =~= Seq::<i32>::empty());
    } else if !flag(raw, 3) && cond {
        assert(dest_code(raw) =~= seq![WasmInstr::LocalTee(WasmLocal::A), WasmInstr::LocalTee(WasmLocal::D)]);
        reveal_with_fuel(run_from, 3);
    } else if !flag(raw, 3) && !cond {
        assert(dest_code(raw) =~= seq![WasmInstr::LocalTee(WasmLocal::A), WasmInstr::LocalSet(WasmLocal::D)]);
        reveal_with_fuel(run_from, 3);
        assert(seq![(alu_output(s) as i32)].drop_last() =~= Seq::<i32>::empty());
    }
}

#[verifier::spinoff_prover]
proof fn lemma_dest_a_no_d(s: HackState, g: WasmFrame)
    requires
        machine_wf(s),
        0 <= s.pc,
        is_c_instruction(current_bits(s)),
        m_in_range(s),
        g.branch is None,
        s.ram.len() <= g.memory.len(),
        g.stack == (if result_users(current_bits(s)) > 0 {
            (if flag(current_bits(s), 3) {
                seq![(4 * s.a) as i32]
            } else {
                seq![]
            }).push(alu_output(s) as i32)
        } else {
            seq![]
        }),
        flag(current_bits(s), 5),
        !flag(current_bits(s), 4),
    ensures
        run_code(dest_code(current_bits(s)), g) matches Some(h) && stored(s, g, h),
{
    let raw = current_bits(s);
    let j = jump_of_code(raw & 7);
    let cond = j != JumpCondition::NoJump && j != JumpCondition::JMP;
    if flag(raw, 3) && cond {
        assert(dest_code(raw) =~= seq![WasmInstr::LocalTee(WasmLocal::A), WasmInstr::LocalTee(WasmLocal::Result), WasmInstr::I32Store, WasmInstr::LocalGet(WasmLocal::Result)]);
        reveal_with_fuel(run_from, 5);
        assert(word_at(g.memory, (4 * s.a) as i32) == Some(s.a as int));
        assert(g.stack.subrange(0, g.stack.len() - 2) =~= Seq::<i32>::empty());
    } else if flag(raw, 3) && !cond {
        assert(dest_code(raw) =~= seq![WasmInstr::LocalTee(WasmLocal::A), WasmInstr::I32Store]);
        reveal_with_fuel(run_from, 3);
        assert(word_at(g.memory, (4 * s.a) as i32) == Some(s.a as int));
        assert(g.stack.subrange(0, g.stack.len() - 2) =~= Seq::<i32>::empty());
    } else if !flag(raw, 3) && cond {
        assert(dest_code(raw) =~= seq![WasmInstr::LocalTee(WasmLocal::A)]);
        reveal_with_fuel(run_from, 2);
    } else if !flag(raw, 3) && !cond {
        assert(dest_code(raw) =~= seq![WasmInstr::LocalSet(WasmLocal::A)]);
        reveal_with_fuel(run_from, 2);
        assert(seq![(alu_output(s) as i32)].drop_last() =~= Seq::<i32>::empty());
    }
}

#[verifier::spinoff_prover]
proof fn lemma_dest_no_a_d(s: HackState, g: WasmFrame)
    requires
        machine_wf(s),
        0 <= s.pc,
        is_c_instruction(current_bits(s)),
        m_in_range(s),
        g.branch is None,
        s.ram.len() <= g.memory.len(),
        g.stack == (if result_users(current_bits(s)) > 0 {
            (if flag(current_bits(s), 3) {
                seq![(4 * s.a) as i32]
            } else {
                seq![]
            }).push(alu_output(s) as i32)
        } else {
            seq![]
        }),
        !flag(current_bits(s), 5),
        flag(current_bits(s), 4),
    ensures
        run_code(dest_code(current_bits(s)), g) matches Some(h) && stored(s, g, h),
{
    let raw = current_bits(s);
    let j = jump_of_code(raw & 7);
    let cond = j != JumpCondition::NoJump && j != JumpCondition::JMP;
    if flag(raw, 3) && cond {
        assert(dest_code(raw) =~= seq![WasmInstr::LocalTee(WasmLocal::D), WasmInstr::LocalTee(WasmLocal::Result), WasmInstr::I32Store, WasmInstr::LocalGet(WasmLocal::Result)]);
        reveal_with_fuel(run_from, 5);
        assert(word_at(g.memory, (4 * s.a) as i32) == Some(s.a as int));
        assert(g.stack.subrange(0, g.stack.len() - 2) =~= Seq::<i32>::empty());
    } else if flag(raw, 3) && !cond {
        assert(dest_code(raw) =~= seq![WasmInstr::LocalTee(WasmLocal::D), WasmInstr::I32Store]);
        reveal_with_fuel(run_from, 3);
        assert(word_at(g.memory, (4 * s.a) as i32) == Some(s.a as int));
        assert(g.stack.subrange(0, g.stack.len() - 2) =~= Seq::<i32>::empty());
    } else if !flag(raw, 3) && cond {
        assert(dest_code(raw) =~= seq![WasmInstr::LocalTee(WasmLocal::D)]);
        reveal_with_fuel(run_from, 2);
    } else if !flag(raw, 3) && !cond {
        assert(dest_code(raw) =~= seq![WasmInstr::LocalSet(WasmLocal::D)]);
        reveal_with_fuel(run_from, 2);
        assert(seq![(alu_output(s) as i32)].drop_last() =~= Seq::<i32>::empty());
    }
}

#[verifier::spinoff_prover]
proof fn lemma_dest_no_a_no_d(s: HackState, g: WasmFrame)
    requires
        machine_wf(s),
        0 <= s.pc,
        is_c_instruction(current_bits(s)),
        m_in_range(s),
        g.branch is None,
        s.ram.len() <= g.memory.len(),
        g.stack == (if result_users(current_bits(s)) > 0 {
            (if flag(current_bits(s), 3) {
                seq![(4 * s.a) as i32]
            } else {
                seq![]
            }).push(alu_output(s) as i32)
        } else {
            seq![]
        }),
        !flag(current_bits(s), 5),
        !flag(current_bits(s), 4),
    ensures
        run_code(dest_code(current_bits(s)), g) matches Some(h) && stored(s, g, h),
{
    let raw = current_bits(s);
    let j = jump_of_code(raw & 7);
    let cond = j != JumpCondition::NoJump && j != JumpCondition::JMP;
    if flag(raw, 3) && cond {
        assert(dest_code(raw) =~= seq![WasmInstr::LocalTee(WasmLocal::Result), WasmInstr::I32Store, WasmInstr::LocalGet(WasmLocal::Result)]);
        reveal_with_fuel(run_from, 4);
        assert(word_at(g.memory, (4 * s.a) as i32) == Some(s.a as int));
        assert(g.stack.subrange(0, g.stack.len() - 2) =~= Seq::<i32>::empty());
    } else if flag(raw, 3) && !cond {
        assert(dest_code(raw) =~= seq![WasmInstr::I32Store]);
        reveal_with_fuel(run_from, 2);
        assert(word_at(g.memory, (4 * s.a) as i32) == Some(s.a as int));
        assert(g.stack.subrange(0, g.stack.len() - 2) =~= Seq::<i32>::empty());
    } else if !flag(raw, 3) && cond {
        assert(dest_code(raw) =~= Seq::<WasmInstr>::empty());
        reveal_with_fuel(run_from, 1);
    } else if !flag(raw, 3) && !cond {
        assert(dest_code(raw) =~= Seq::<WasmInstr>::empty());
        reveal_with_fuel(run_from, 1);
    }
}

/// The code that stores the value of the C-instruction at PC leaves the value on the stack
/// only for a conditional jump, and writes A, D and M as the destination bits say.
proof fn lemma_dest(s: HackState, g: WasmFrame)
    requires
        machine_wf(s),
        0 <= s.pc,
        is_c_instruction(current_bits(s)),
        m_in_range(s),
        g.branch is None,
        s.ram.len() <= g.memory.len(),
        g.stack == (if result_users(current_bits(s)) > 0 {
            (if flag(current_bits(s), 3) {
                seq![(4 * s.a) as i32]
            } else {
                seq![]
            }).push(alu_output(s) as i32)
        } else {
            seq![]
        }),
    ensures
        run_code(dest_code(current_bits(s)), g) matches Some(h) && stored(s, g, h),
{
    let raw = current_bits(s);
    if flag(raw, 5) && flag(raw, 4) {
        lemma_dest_a_d(s, g);
    } else if flag(raw, 5) && !flag(raw, 4) {
        lemma_dest_a_no_d(s, g);
    } else if !flag(raw, 5) && flag(raw, 4) {
        lemma_dest_no_a_d(s, g);
    } else if !flag(raw, 5) && !flag(raw, 4) {
        lemma_dest_no_a_no_d(s, g);
    }
}

proof fn lemma_branch_jne(j: JumpCondition, target: BranchTarget, out: i16, g: WasmFrame)
    requires
        g.branch is None,
        j == JumpCondition::JNE,
        g.stack == (if j != JumpCondition::NoJump && j != JumpCondition::JMP {
            seq![out as i32]
        } else {
            seq![]
        }),
    ensures
        run_code(branch_code(j, target), g) == Some(
            WasmFrame {
                stack: seq![],
                branch: if jump_holds(j, out) { Some(target) } else { None },
                ..g
            },
        ),
{
    let v = out as i32;
    reveal_with_fuel(run_from, 4);
    assert(seq![v].push(0i32).subrange(0, 0) =~= Seq::<i32>::empty());
    assert(seq![bool_word(v != 0)].drop_last() =~= Seq::<i32>::empty());
}

proof fn lemma_branch_jle(j: JumpCondition, target: BranchTarget, out: i16, g: WasmFrame)
    requires
        g.branch is None,
        j == JumpCondition::JLE,
        g.stack == (if j != JumpCondition::NoJump && j != JumpCondition::JMP {
            seq![out as i32]
        } else {
            seq![]
        }),
    ensures
        run_code(branch_code(j, target), g) == Some(
            WasmFrame {
                stack: seq![],
                branch: if jump_holds(j, out) { Some(target) } else { None },
                ..g
            },
        ),
{
    let v = out as i32;
    reveal_with_fuel(run_from, 4);
    assert(seq![v].push(0i32).subrange(0, 0) =~= Seq::<i32>::empty());
    assert(seq![bool_word(v <= 0)].drop_last() =~= Seq::<i32>::empty());
}

proof fn lemma_branch_jge(j: JumpCondition, target: BranchTarget, out: i16, g: WasmFrame)
    requires
        g.branch is None,
        j == JumpCondition::JGE,
        g.stack == (if j != JumpCondition::NoJump && j != JumpCondition::JMP {
            seq![out as i32]
        } else {
            seq![]
        }),
    ensures
        run_code(branch_code(j, target), g) == Some(
            WasmFrame {
                stack: seq![],
                branch: if jump_holds(j, out) { Some(target) } else { None },
                ..g
            },
        ),
{
    let v = out as i32;
    reveal_with_fuel(run_from, 4);
    assert(seq![v].push(0i32).subrange(0, 0) =~= Seq::<i32>::empty());
    assert(seq![bool_word(v >= 0)].drop_last() =~= Seq::<i32>::empty());
}

proof fn lemma_branch_jlt(j: JumpCondition, target: BranchTarget, out: i16, g: WasmFrame)
    requires
        g.branch is None,
        j == JumpCondition::JLT,
        g.stack == (if j != JumpCondition::NoJump && j != JumpCondition::JMP {
            seq![out as i32]
        } else {
            seq![]
        }),
    ensures
        run_code(branch_code(j, target), g) == Some(
            WasmFrame {
                stack: seq![],
                branch: if jump_holds(j, out) { Some(target) } else { None },
                ..g
            },
        ),
{
    let v = out as i32;
    reveal_with_fuel(run_from, 4);
    assert(seq![v].push(0i32).subrange(0, 0) =~= Seq::<i32>::empty());
    assert(seq![bool_word(v < 0)].drop_last() =~= Seq::<i32>::empty());
}

proof fn lemma_branch_jgt(j: JumpCondition, target: BranchTarget, out: i16, g: WasmFrame)
    requires
        g.branch is None,
        j == JumpCondition::JGT,
        g.stack == (if j != JumpCondition::NoJump && j != JumpCondition::JMP {
            seq![out as i32]
        } else {
            seq![]
        }),
    ensures
        run_code(branch_code(j, target), g) == Some(
            WasmFrame {
                stack: seq![],
                branch: if jump_holds(j, out) { Some(target) } else { None },
                ..g
            },
        ),
{
    let v = out as i32;
    reveal_with_fuel(run_from, 4);
    assert(seq![v].push(0i32).subrange(0, 0) =~= Seq::<i32>::empty());
    assert(seq![bool_word(v > 0)].drop_last() =~= Seq::<i32>::empty());
}

proof fn lemma_branch(j: JumpCondition, target: BranchTarget, out: i16, g: WasmFrame)
    requires
        g.branch is None,
        g.stack == (if j != JumpCondition::NoJump && j != JumpCondition::JMP {
            seq![out as i32]
        } else {
            seq![]
        }),
    ensures
        run_code(branch_code(j, target), g) == Some(
            WasmFrame {
                stack: seq![],
                branch: if jump_holds(j, out) { Some(target) } else { None },
                ..g
            },
        ),
{
    let v = out as i32;
    match j {
        JumpCondition::NoJump => {},
        JumpCondition::JMP => {
            reveal_with_fuel(run_from, 2);
        },
        JumpCondition::JEQ => {
            reveal_with_fuel(run_from, 3);
            assert(seq![v].drop_last() =~= Seq::<i32>::empty());
            assert(seq![bool_word(v == 0)].drop_last() =~= Seq::<i32>::empty());
        },
        JumpCondition::JNE => lemma_branch_jne(j, target, out, g),
        JumpCondition::JLE => lemma_branch_jle(j, target, out, g),
        JumpCondition::JGE => lemma_branch_jge(j, target, out, g),
        JumpCondition::JLT => lemma_branch_jlt(j, target, out, g),
        JumpCondition::JGT => lemma_branch_jgt(j, target, out, g),
    }
}

/// What running the code of the instruction at PC from `f` leaves in `g`: the Hack step
/// done (A, D and RAM as `execute` gives them, the value stored at the old A where M is a
/// destination), the ticks counter one up, the branch taken exactly where the instruction
/// jumps, and, where jumps return to the dispatch loop, the old A as the jump target.
pub open spec fn executed(s: HackState, target: BranchTarget, f: WasmFrame, g: WasmFrame) -> bool {
    let raw = current_bits(s);
    let t = execute(s);
    &&& g.stack.len() == 0
    &&& g.a == t.a as i32
    &&& g.d == t.d as i32
    &&& g.ticks == i32_specs::wrapping_add(1, f.ticks)
    &&& g.memory == (if is_c_instruction(raw) && flag(raw, 3) {
        f.memory.update(s.a as int, alu_output(s) as i32)
    } else {
        f.memory
    })
    &&& g.branch == (if is_c_instruction(raw) && jumps(s) { Some(target) } else { None })
    &&& g.jump_target == (if is_c_instruction(raw) && target is Loop && jump_of_code(raw & 7)
        != JumpCondition::NoJump {
        s.a as i32
    } else {
        f.jump_target
    })
}

#[verifier::spinoff_prover]
proof fn lemma_a_instruction_executes(s: HackState, f: WasmFrame, target: BranchTarget)
    requires
        machine_wf(s),
        0 <= s.pc,
        !is_c_instruction(current_bits(s)),
        holds_state(f, s),
    ensures
        run_code(instr_code(current_bits(s), target), f) matches Some(g) && executed(
            s,
            target,
            f,
            g,
        ) && holds_state(WasmFrame { branch: None, ..g }, execute(s)),
{
    let raw = current_bits(s);
    lemma_tick(f);
    assert(f.stack =~= Seq::<i32>::empty());
    let rest = seq![WasmInstr::I32Const((raw as i16) as i32), WasmInstr::LocalSet(WasmLocal::A)];
    lemma_run_concat(tick_code(), rest, f);
    reveal_with_fuel(run_from, 3);
    assert(seq![(raw as i16) as i32].drop_last() =~= Seq::<i32>::empty());
}

#[verifier::spinoff_prover]
#[verifier::rlimit(50)]
proof fn lemma_c_instruction_executes(s: HackState, f: WasmFrame, target: BranchTarget)
    requires
        machine_wf(s),
        0 <= s.pc,
        is_c_instruction(current_bits(s)),
        compilable(current_bits(s)),
        m_in_range(s),
        holds_state(f, s),
    ensures
        run_code(instr_code(current_bits(s), target), f) matches Some(g) && executed(
            s,
            target,
            f,
            g,
        ) && holds_state(WasmFrame { branch: None, ..g }, execute(s)),
{
    let raw = current_bits(s);
    let f1 = WasmFrame { ticks: i32_specs::wrapping_add(1, f.ticks), ..f };
    lemma_tick(f);
    assert(f.stack =~= Seq::<i32>::empty());
    let save = save_target_code(raw, target);
    let value = value_code(raw);
    let dest = dest_code(raw);
    let branch = branch_code(jump_of_code(raw & 7), target);
    lemma_run_concat(tick_code(), save + value + dest + branch, f);
    lemma_run_concat(save + value + dest, branch, f1);
    lemma_run_concat(save + value, dest, f1);
    lemma_run_concat(save, value, f1);
    lemma_save(raw, target, f1);
    let f2 = if target is Loop && jump_of_code(raw & 7) != JumpCondition::NoJump {
        WasmFrame { jump_target: f1.a, ..f1 }
    } else {
        f1
    };
    lemma_value(s, f2);
    let f3 = if result_users(raw) > 0 { value_frame(s, f2) } else { f2 };
    lemma_dest(s, f3);
    let f4 = run_code(dest, f3).unwrap();
    lemma_branch(jump_of_code(raw & 7), target, alu_output(s), f4);
    let g = WasmFrame {
        stack: seq![],
        branch: if jump_holds(jump_of_code(raw & 7), alu_output(s)) { Some(target) } else { None },
        ..f4
    };
    assert(run_code(instr_code(raw, target), f) == Some(g));
    assert(execute(s).ram =~= if flag(raw, 3) {
        s.ram.update(s.a as int, alu_output(s))
    } else {
        s.ram
    });
}

/// Running the compiled code of the instruction at PC carries out one Hack step: from a
/// frame that holds the Hack state, the code runs without trapping and leaves a frame that
/// holds the next state, with the branch taken exactly where the instruction jumps.
pub proof fn lemma_instruction_code_executes(s: HackState, f: WasmFrame, target: BranchTarget)
    requires
        machine_wf(s),
        0 <= s.pc,
        compilable(current_bits(s)),
        m_in_range(s),
        holds_state(f, s),
    ensures
        run_code(instr_code(current_bits(s), target), f) matches Some(g) && executed(
            s,
            target,
            f,
            g,
        ) && holds_state(WasmFrame { branch: None, ..g }, execute(s)),
{
    if is_c_instruction(current_bits(s)) {
        lemma_c_instruction_executes(s, f, target);
    } else {
        lemma_a_instruction_executes(s, f, target);
    }
}

/// The instruction words of a program.
pub open spec fn words_of(instructions: Seq<Instruction>) -> Seq<u16> {
    instructions.map_values(|ins: Instruction| ins.bits())
}

/// What A is known to hold after an instruction, given what it was known to hold before:
/// an A-instruction sets it, a C-instruction that writes A makes it unknown.
pub open spec fn a_after(known: Option<int>, raw: u16) -> Option<int> {
    if !is_c_instruction(raw) {
        Some(raw as int)
    } else if flag(raw, 5) {
        None
    } else {
        known
    }
}

/// What A is known to hold before instruction `i`, reading the program from its start.
pub open spec fn known_a(bits: Seq<u16>, i: int) -> Option<int>
    decreases i,
{
    if i <= 0 || i > bits.len() {
        None
    } else {
        a_after(known_a(bits, i - 1), bits[i - 1])
    }
}

/// A C-instruction with a jump condition.
pub open spec fn jumps_at(raw: u16) -> bool {
    is_c_instruction(raw) && jump_of_code(raw & 7) != JumpCondition::NoJump
}

/// Where a case of straight-line code starts: at the start and at the end of the program,
/// and at each address that a jump is seen to go to.
pub open spec fn is_case_start(bits: Seq<u16>, t: int) -> bool {
    ||| t == 0
    ||| t == bits.len()
    ||| exists|i: int| 0 <= i < bits.len() && jumps_at(bits[i]) && known_a(bits, i) == Some(t)
}

/// Each element is greater than the one before.
pub open spec fn strictly_increasing(s: Seq<int>) -> bool {
    forall|i: int, j: int| 0 <= i < j < s.len() ==> s[i] < s[j]
}

/// The numbers of a `Vec<usize>`.
pub open spec fn ints(s: Seq<usize>) -> Seq<int> {
    s.map_values(|x: usize| x as int)
}

/// The case starts that overrides list, in their order.
pub open spec fn override_starts(overrides: Seq<(usize, i32)>) -> Seq<int> {
    overrides.map_values(|p: (usize, i32)| p.0 as int)
}

/// The branch at the end of the case of instruction `i` into the block of the next
/// instruction, where a case starts there.
pub open spec fn fallthrough_code(starts: Seq<int>, n: int, i: int) -> Seq<WasmInstr> {
    if starts.contains(i + 1) {
        seq![WasmInstr::Br(BranchTarget::Depth((starts.index_of(i + 1) + n - i) as u32))]
    } else {
        seq![]
    }
}

/// What A is known to hold before instruction `i` within its block: nothing at a block
/// start.
pub open spec fn block_a(bits: Seq<u16>, starts: Seq<int>, i: int) -> Option<int>
    decreases i,
{
    if i <= 0 || i > bits.len() || starts.contains(i) {
        None
    } else {
        a_after(block_a(bits, starts, i - 1), bits[i - 1])
    }
}

/// Where a jump of instruction `i` in block `k` goes: straight to the enclosing block of
/// the case that starts at the known A, where that block encloses block `k`; else back to
/// the dispatch loop.
pub open spec fn block_target(bits: Seq<u16>, starts: Seq<int>, k: int, i: int) -> BranchTarget {
    match block_a(bits, starts, i) {
        Some(a) => if jumps_at(bits[i]) && starts.contains(a) && starts.index_of(a) - 1 - k >= 0 {
            BranchTarget::Depth((starts.index_of(a) - 1 - k) as u32)
        } else {
            BranchTarget::Loop
        },
        None => BranchTarget::Loop,
    }
}

/// The code of block `k`, from its start up to (not including) instruction `hi`.
pub open spec fn block_code(bits: Seq<u16>, starts: Seq<int>, k: int, hi: int) -> Seq<WasmInstr>
    decreases hi - starts[k],
{
    if hi <= starts[k] {
        seq![]
    } else {
        block_code(bits, starts, k, hi - 1) + instr_code(bits[hi - 1], block_target(bits, starts, k, hi - 1))
    }
}

/// Inserts `t` into a strictly increasing list, keeping it so.
pub(crate) fn insert_target(targets: &mut Vec<usize>, t: usize)
    requires
        strictly_increasing(ints(old(targets)@)),
    ensures
        strictly_increasing(ints(final(targets)@)),
        forall|x: int| ints(final(targets)@).contains(x) <==> (ints(old(targets)@).contains(x) || x == t),
        final(targets).len() <= old(targets).len() + 1,
{
    let ghost old_ints = ints(targets@);
    let mut p: usize = 0;
    while p < targets.len() && targets[p] < t
        invariant
            0 <= p <= targets.len(),
            targets@ == old(targets)@,
            forall|i: int| 0 <= i < p ==> targets@[i] < t,
        decreases targets.len() - p,
    {
        p = p + 1;
    }
    if p < targets.len() && targets[p] == t {
        assert(ints(targets@)[p as int] == t);
        return;
    }
    targets.insert(p, t);
    let ghost new_ints = ints(targets@);
    assert(new_ints =~= old_ints.insert(p as int, t as int));
    assert(p < old_ints.len() ==> old_ints[p as int] > t);
    assert forall|i: int, j: int| 0 <= i < j < new_ints.len() implies new_ints[i] < new_ints[j] by {
        if j < p {
            assert(new_ints[i] == old_ints[i] && new_ints[j] == old_ints[j]);
        } else if j == p {
            assert(new_ints[i] == old_ints[i]);
        } else if i < p {
            assert(new_ints[i] == old_ints[i] && new_ints[j] == old_ints[j - 1]);
            assert(old_ints[i] < t);
            assert(old_ints[p as int] <= old_ints[j - 1]);
        } else if i == p {
            assert(new_ints[j] == old_ints[j - 1]);
            assert(old_ints[p as int] <= old_ints[j - 1]);
        } else {
            assert(new_ints[i] == old_ints[i - 1] && new_ints[j] == old_ints[j - 1]);
        }
    }
    assert forall|x: int| new_ints.contains(x) <==> (old_ints.contains(x) || x == t) by {
        if new_ints.contains(x) {
            let i = choose|i: int| 0 <= i < new_ints.len() && new_ints[i] == x;
            if i > p {
                assert(old_ints[i - 1] == x);
            }
        }
        if old_ints.contains(x) {
            let i = choose|i: int| 0 <= i < old_ints.len() && old_ints[i] == x;
            if i < p {
                assert(new_ints[i] == x);
            } else {
                assert(new_ints[i + 1] == x);
            }
        }
        if x == t {
            assert(new_ints[p as int] == x);
        }
    }
}

/// The index of `t` in a strictly increasing list, if it is there.
pub(crate) fn find_target(targets: &Vec<usize>, t: usize) -> (r: Option<usize>)
    requires
        strictly_increasing(ints(targets@)),
    ensures
        r is Some <==> ints(targets@).contains(t as int),
        r matches Some(k) ==> k < targets.len() && k == ints(targets@).index_of(t as int) && targets@[k as int] == t,
{
    let mut k: usize = 0;
    while k < targets.len()
        invariant
            0 <= k <= targets.len(),
            strictly_increasing(ints(targets@)),
            forall|i: int| 0 <= i < k ==> targets@[i] != t,
        decreases targets.len() - k,
    {
        if targets[k] == t {
            assert(ints(targets@)[k as int] == t);
            assert(ints(targets@).contains(t as int));
            let ghost j = ints(targets@).index_of(t as int);
            assert(j == k) by {
                if j < k {
                    assert(ints(targets@)[j] < ints(targets@)[k as int]);
                } else if j > k {
                    assert(ints(targets@)[k as int] < ints(targets@)[j]);
                }
            }
            return Some(k);
        }
        k = k + 1;
    }
    assert(!ints(targets@).contains(t as int)) by {
        if ints(targets@).contains(t as int) {
            let i = choose|i: int| 0 <= i < ints(targets@).len() && ints(targets@)[i] == t;
            assert(targets@[i] == t);
        }
    }
    None
}

/// What the static dispatch of a program is: the cases, one per instruction (its code, then
/// a branch into the block of the next instruction where a case starts there), one that
/// leaves the dispatch, and one block per case that starts inside the program (its
/// instructions run straight through, with jumps to statically known cases going straight
/// to their blocks); and the overrides, which list the case starts in increasing order, each
/// with the index of its block in the dispatch table.
pub open spec fn static_cases_of(
    bits: Seq<u16>,
    cases: Seq<Seq<WasmInstr>>,
    overrides: Seq<(usize, i32)>,
) -> bool {
    let n = bits.len() as int;
    let starts = override_starts(overrides);
    &&& strictly_increasing(starts)
    &&& forall|t: int| starts.contains(t) <==> is_case_start(bits, t)
    &&& forall|k: int| 0 <= k < overrides.len() ==> overrides[k].1 == k + n + 1
    &&& cases.len() == n + 1 + starts.index_of(n)
    &&& forall|i: int|
        0 <= i < n ==> cases[i] == instr_code(bits[i], BranchTarget::Loop) + fallthrough_code(
            starts,
            n,
            i,
        )
    &&& cases[n] == seq![WasmInstr::Br(BranchTarget::Depth((starts.len() - 1) as u32))]
    &&& forall|k: int|
        0 <= k < starts.index_of(n) ==> #[trigger] block_code(bits, starts, k, starts[k + 1])
            == cases[n + 1 + k]
}

/// The contents of an optional `usize` as a number.
pub open spec fn opt_int(o: Option<usize>) -> Option<int> {
    match o {
        Some(v) => Some(v as int),
        None => None,
    }
}

proof fn lemma_a_instruction_word(raw: u16)
    by (bit_vector)
    ensures
        !flag(raw, 15) ==> raw < 0x8000,
{
}

/// The case starts of a program, in increasing order.
fn collect_case_starts(instructions: &[Instruction]) -> (targets: Vec<usize>)
    requires
        instructions.len() <= MEM_SIZE,
    ensures
        strictly_increasing(ints(targets@)),
        forall|t: int| ints(targets@).contains(t) <==> is_case_start(words_of(instructions@), t),
        targets.len() <= instructions.len() + 2,
{
    let ghost bits = words_of(instructions@);
    let n = instructions.len();
    let mut targets: Vec<usize> = Vec::new();
    targets.push(0);
    assert(ints(targets@) =~= seq![0int]);
    assert forall|t: int| ints(targets@).contains(t) <==> t == 0 by {
        if t == 0 {
            assert(ints(targets@)[0] == 0);
        }
    }
    let mut a_value: Option<usize> = None;
    let mut idx: usize = 0;
    while idx < n
        invariant
            n == instructions.len() <= MEM_SIZE,
            bits == words_of(instructions@),
            0 <= idx <= n,
            strictly_increasing(ints(targets@)),
            targets.len() <= idx + 1,
            opt_int(a_value) == known_a(bits, idx as int),
            forall|t: int|
                ints(targets@).contains(t) <==> (t == 0 || exists|i: int|
                    0 <= i < idx && jumps_at(bits[i]) && known_a(bits, i) == Some(t)),
        decreases n - idx,
    {
        let ins = &instructions[idx];
        assert(bits[idx as int] == ins.bits());
        let ghost before = ints(targets@);
        let ghost known = known_a(bits, idx as int);
        if !ins.flag(15) {
            proof {
                lemma_a_instruction_word(ins.bits());
            }
            a_value = Some(ins.loaded_value() as usize);
        } else {
            let jump = ins.jump_condition();
            if jump != JumpCondition::NoJump {
                if let Some(t) = a_value {
                    insert_target(&mut targets, t);
                }
            }
            if ins.dst_has_a() {
                a_value = None;
            }
        }
        assert forall|t: int|
            ints(targets@).contains(t) <==> (t == 0 || exists|i: int|
                0 <= i < idx + 1 && jumps_at(bits[i]) && known_a(bits, i) == Some(t)) by {
            if ints(targets@).contains(t) && !before.contains(t) {
                assert(jumps_at(bits[idx as int]) && known_a(bits, idx as int) == Some(t));
            }
            if exists|i: int| 0 <= i < idx + 1 && jumps_at(bits[i]) && known_a(bits, i) == Some(t) {
                let i = choose|i: int| 0 <= i < idx + 1 && jumps_at(bits[i]) && known_a(bits, i) == Some(t);
                if i < idx {
                    assert(before.contains(t));
                }
            }
        }
        idx = idx + 1;
    }
    let ghost before = ints(targets@);
    insert_target(&mut targets, n);
    assert forall|t: int| ints(targets@).contains(t) <==> is_case_start(bits, t) by {
        if ints(targets@).contains(t) && t != n {
            assert(before.contains(t));
        }
    }
    targets
}

/// The cases of the single instructions, then the case that leaves the dispatch.
fn instruction_cases(instructions: &[Instruction], targets: &Vec<usize>) -> (cases: Vec<Vec<WasmInstr>>)
    requires
        instructions.len() <= MEM_SIZE,
        forall|i: int| 0 <= i < instructions.len() ==> compilable(#[trigger] instructions@[i].bits()),
        strictly_increasing(ints(targets@)),
        1 <= targets.len() <= instructions.len() + 2,
    ensures
        cases.len() == instructions.len() + 1,
        forall|i: int|
            0 <= i < instructions.len() ==> cases@[i]@ == instr_code(
                words_of(instructions@)[i],
                BranchTarget::Loop,
            ) + fallthrough_code(ints(targets@), instructions.len() as int, i),
        cases@[instructions.len() as int]@ == seq![
            WasmInstr::Br(BranchTarget::Depth((targets.len() - 1) as u32)),
        ],
{
    let ghost bits = words_of(instructions@);
    let n = instructions.len();
    let mut cases: Vec<Vec<WasmInstr>> = Vec::new();
    let mut idx: usize = 0;
    while idx < n
        invariant
            n == instructions.len() <= MEM_SIZE,
            bits == words_of(instructions@),
            forall|i: int| 0 <= i < instructions.len() ==> compilable(#[trigger] instructions@[i].bits()),
            strictly_increasing(ints(targets@)),
            1 <= targets.len() <= n + 2,
            0 <= idx <= n,
            cases.len() == idx,
            forall|i: int|
                0 <= i < idx ==> cases@[i]@ == instr_code(bits[i], BranchTarget::Loop)
                    + fallthrough_code(ints(targets@), n as int, i),
        decreases n - idx,
    {
        let ins = &instructions[idx];
        assert(bits[idx as int] == ins.bits());
        let mut case = hack_instr_to_wasm(ins, BranchTarget::Loop);
        let ghost code = case@;
        match find_target(targets, idx + 1) {
            Some(ci) => {
                case.push(WasmInstr::Br(BranchTarget::Depth((ci + n - idx) as u32)));
            },
            None => {},
        }
        assert(case@ =~= code + fallthrough_code(ints(targets@), n as int, idx as int));
        cases.push(case);
        idx = idx + 1;
    }
    let mut exit: Vec<WasmInstr> = Vec::new();
    exit.push(WasmInstr::Br(BranchTarget::Depth((targets.len() - 1) as u32)));
    cases.push(exit);
    assert(cases@[n as int]@ =~= seq![WasmInstr::Br(BranchTarget::Depth((targets.len() - 1) as u32))]);
    cases
}

/// Pushes one block per case that starts inside the program.
fn push_blocks(cases: &mut Vec<Vec<WasmInstr>>, instructions: &[Instruction], targets: &Vec<usize>)
    requires
        instructions.len() <= MEM_SIZE,
        forall|i: int| 0 <= i < instructions.len() ==> compilable(#[trigger] instructions@[i].bits()),
        strictly_increasing(ints(targets@)),
        ints(targets@).contains(0),
        ints(targets@).contains(instructions.len() as int),
        targets.len() <= instructions.len() + 2,
        old(cases).len() == instructions.len() + 1,
    ensures
        final(cases).len() == instructions.len() + 1 + ints(targets@).index_of(instructions.len() as int),
        forall|i: int| 0 <= i <= instructions.len() ==> final(cases)@[i] == old(cases)@[i],
        forall|k: int|
            0 <= k < ints(targets@).index_of(instructions.len() as int) ==> #[trigger] block_code(
                words_of(instructions@),
                ints(targets@),
                k,
                ints(targets@)[k + 1],
            ) == final(cases)@[instructions.len() + 1 + k]@,
{
    let ghost bits = words_of(instructions@);
    let ghost starts = ints(targets@);
    let n = instructions.len();
    let ghost first = cases@;
    let mut current: Vec<WasmInstr> = Vec::new();
    let mut a_value: Option<usize> = None;
    let ghost mut k: int = 0;
    let mut idx: usize = 0;
    proof {
        let z = starts.index_of(0);
        if z > 0 {
            assert(starts[0] < starts[z]);
            assert(starts[0] >= 0);
        }
        assert(starts[0] == 0);
    }
    while idx < n
        invariant
            n == instructions.len() <= MEM_SIZE,
            bits == words_of(instructions@),
            starts == ints(targets@),
            forall|i: int| 0 <= i < instructions.len() ==> compilable(#[trigger] instructions@[i].bits()),
            strictly_increasing(starts),
            starts.contains(n as int),
            targets.len() <= n + 2,
            0 <= idx <= n,
            0 <= k < starts.len(),
            starts[k] <= idx,
            k + 1 < starts.len() ==> starts[k + 1] > idx,
            cases.len() == n + 1 + k,
            forall|i: int| 0 <= i <= n ==> cases@[i] == first[i],
            forall|j: int|
                0 <= j < k ==> #[trigger] block_code(bits, starts, j, starts[j + 1]) == cases@[n + 1 + j]@,
            current@ == block_code(bits, starts, k, idx as int),
            opt_int(a_value) == block_a(bits, starts, idx as int),
        decreases n - idx,
    {
        let ins = &instructions[idx];
        assert(bits[idx as int] == ins.bits());
        proof {
            if k + 1 >= starts.len() {
                let z = starts.index_of(n as int);
                assert(starts[z] <= starts[k]);
            }
        }
        let mut jump_index = BranchTarget::Loop;
        if !ins.flag(15) {
            proof {
                lemma_a_instruction_word(ins.bits());
            }
            a_value = Some(ins.loaded_value() as usize);
        } else {
            let jump = ins.jump_condition();
            if jump != JumpCondition::NoJump {
                if let Some(a) = a_value {
                    if let Some(ci) = find_target(targets, a) {
                        let blocks = cases.len() - n;
                        if ci >= blocks {
                            jump_index = BranchTarget::Depth((ci - blocks) as u32);
                        }
                    }
                }
            }
            if ins.dst_has_a() {
                a_value = None;
            }
        }
        assert(jump_index == block_target(bits, starts, k, idx as int));
        let mut code = hack_instr_to_wasm(ins, jump_index);
        current.append(&mut code);
        assert(current@ =~= block_code(bits, starts, k, idx + 1));
        match find_target(targets, idx + 1) {
            Some(ci) => {
                proof {
                    assert(starts[ci as int] == idx + 1);
                    if ci as int != k + 1 {
                        assert(starts[k + 1] <= starts[ci as int]);
                    }
                }
                let block = current;
                cases.push(block);
                current = Vec::new();
                a_value = None;
                proof {
                    k = k + 1;
                    assert(current@ =~= block_code(bits, starts, k, idx + 1));
                }
            },
            None => {
                proof {
                    if k + 1 < starts.len() && starts[k + 1] == idx + 1 {
                        assert(starts.contains(idx + 1));
                    }
                }
            },
        }
        idx = idx + 1;
    }
    proof {
        let z = starts.index_of(n as int);
        if z > k {
            assert(starts[k + 1] <= starts[z]);
        } else if z < k {
            assert(starts[z] < starts[k]);
        }
        assert(z == k);
    }
}

/// The views of the cases.
pub open spec fn case_views(cases: Seq<Vec<WasmInstr>>) -> Seq<Seq<WasmInstr>> {
    cases.map_values(|c: Vec<WasmInstr>| c@)
}

/// Lays a program out for a dispatch loop that branches straight between the blocks of
/// straight-line code that jumps are statically seen to start: returns the cases and, for
/// each case start in increasing order, the index of its block in the dispatch table.
pub fn hack_to_static_cases(instructions: &[Instruction]) -> (r: (Vec<Vec<WasmInstr>>, Vec<(usize, i32)>))
    requires
        instructions.len() <= MEM_SIZE,
        forall|i: int| 0 <= i < instructions.len() ==> compilable(#[trigger] instructions@[i].bits()),
    ensures
        static_cases_of(words_of(instructions@), case_views(r.0@), r.1@),
{
    let ghost bits = words_of(instructions@);
    let n = instructions.len();
    let targets = collect_case_starts(instructions);
    let ghost starts = ints(targets@);
    assert(is_case_start(bits, 0) && is_case_start(bits, n as int));
    let mut cases = instruction_cases(instructions, &targets);
    let ghost first = cases@;
    push_blocks(&mut cases, instructions, &targets);
    let mut overrides: Vec<(usize, i32)> = Vec::new();
    let mut k: usize = 0;
    while k < targets.len()
        invariant
            n == instructions.len() <= MEM_SIZE,
            targets.len() <= n + 2,
            starts == ints(targets@),
            0 <= k <= targets.len(),
            overrides.len() == k,
            forall|j: int| 0 <= j < k ==> overrides@[j].0 == targets@[j],
            forall|j: int| 0 <= j < k ==> overrides@[j].1 == j + n + 1,
        decreases targets.len() - k,
    {
        overrides.push((targets[k], (k + n + 1) as i32));
        k = k + 1;
    }
    assert(override_starts(overrides@) =~= starts);
    let ghost views = case_views(cases@);
    assert forall|i: int| 0 <= i <= n implies views[i] == first[i]@ by {}
    assert forall|k: int| 0 <= k < starts.index_of(n as int) implies #[trigger] block_code(
        bits,
        starts,
        k,
        starts[k + 1],
    ) == views[n + 1 + k] by {}
    (cases, overrides)
}

/// One case per instruction, each going back to the dispatch loop, and no overrides.
pub fn hack_to_dynamic_cases(instructions: &[Instruction]) -> (r: (Vec<Vec<WasmInstr>>, Vec<(usize, i32)>))
    requires
        forall|i: int| 0 <= i < instructions.len() ==> compilable(#[trigger] instructions@[i].bits()),
    ensures
        r.0.len() == instructions.len(),
        forall|i: int|
            0 <= i < instructions.len() ==> r.0@[i]@ == instr_code(
                instructions@[i].bits(),
                BranchTarget::Loop,
            ),
        r.1.len() == 0,
{
    let mut cases: Vec<Vec<WasmInstr>> = Vec::new();
    let mut idx: usize = 0;
    while idx < instructions.len()
        invariant
            forall|i: int| 0 <= i < instructions.len() ==> compilable(#[trigger] instructions@[i].bits()),
            0 <= idx <= instructions.len(),
            cases.len() == idx,
            forall|i: int|
                0 <= i < idx ==> cases@[i]@ == instr_code(instructions@[i].bits(), BranchTarget::Loop),
        decreases instructions.len() - idx,
    {
        cases.push(hack_instr_to_wasm(&instructions[idx], BranchTarget::Loop));
        idx = idx + 1;
    }
    (cases, Vec::new())
}

/// One case per instruction that, after the instruction, sets the jump target to the next
/// instruction and goes back to the dispatch loop.
pub fn hack_dynamic_slow(instructions: &[Instruction]) -> (cases: Vec<Vec<WasmInstr>>)
    requires
        instructions.len() < i32::MAX,
        forall|i: int| 0 <= i < instructions.len() ==> compilable(#[trigger] instructions@[i].bits()),
    ensures
        cases.len() == instructions.len(),
        forall|i: int|
            0 <= i < instructions.len() ==> cases@[i]@ == instr_code(
                instructions@[i].bits(),
                BranchTarget::Loop,
            ) + seq![
                WasmInstr::I32Const((i + 1) as i32),
                WasmInstr::LocalSet(WasmLocal::JumpTarget),
                WasmInstr::Br(BranchTarget::Loop),
            ],
{
    let mut cases: Vec<Vec<WasmInstr>> = Vec::new();
    let mut idx: usize = 0;
    while idx < instructions.len()
        invariant
            instructions.len() < i32::MAX,
            forall|i: int| 0 <= i < instructions.len() ==> compilable(#[trigger] instructions@[i].bits()),
            0 <= idx <= instructions.len(),
            cases.len() == idx,
            forall|i: int|
                0 <= i < idx ==> cases@[i]@ == instr_code(instructions@[i].bits(), BranchTarget::Loop)
                    + seq![
                    WasmInstr::I32Const((i + 1) as i32),
                    WasmInstr::LocalSet(WasmLocal::JumpTarget),
                    WasmInstr::Br(BranchTarget::Loop),
                ],
        decreases instructions.len() - idx,
    {
        let mut instrs = hack_instr_to_wasm(&instructions[idx], BranchTarget::Loop);
        let ghost code = instrs@;
        instrs.push(WasmInstr::I32Const(idx as i32 + 1));
        instrs.push(WasmInstr::LocalSet(WasmLocal::JumpTarget));
        instrs.push(WasmInstr::Br(BranchTarget::Loop));
        assert(instrs@ =~= code + seq![
            WasmInstr::I32Const((idx + 1) as i32),
            WasmInstr::LocalSet(WasmLocal::JumpTarget),
            WasmInstr::Br(BranchTarget::Loop),
        ]);
        cases.push(instrs);
        idx = idx + 1;
    }
    cases
}

// ---------------------------------------------------------------- dispatch loop

/// The case of instruction `i` when every instruction goes back to the dispatch loop: the
/// instruction's code, then the next instruction as the jump target.
pub open spec fn slow_case_code(raw: u16, i: int) -> Seq<WasmInstr> {
    instr_code(raw, BranchTarget::Loop) + seq![
        WasmInstr::I32Const((i + 1) as i32),
        WasmInstr::LocalSet(WasmLocal::JumpTarget),
        WasmInstr::Br(BranchTarget::Loop),
    ]
}

/// The dispatch loop, `n` rounds of it: each round runs the case of the jump target from
/// where the last one left off, which must branch back to the loop with an empty operand
/// stack; `None` where a jump target names no case or a case does not branch back.
pub open spec fn hack_dispatch_rounds(cases: Seq<Seq<WasmInstr>>, f: WasmFrame, n: nat) -> Option<WasmFrame>
    decreases n,
{
    if n == 0 {
        Some(f)
    } else if !(0 <= f.jump_target < cases.len()) {
        None
    } else {
        match run_code(cases[f.jump_target as int], WasmFrame { branch: None, ..f }) {
            None => None,
            Some(g) => if g.branch == Some(BranchTarget::Loop) && g.stack.len() == 0 {
                hack_dispatch_rounds(cases, g, (n - 1) as nat)
            } else {
                None
            },
        }
    }
}

/// Each of the first `n` steps from `s` can be taken, and its instruction can be compiled
/// and has a case.
pub open spec fn hack_run_ok(s: HackState, case_count: int, n: nat) -> bool
    decreases n,
{
    if n == 0 {
        true
    } else {
        &&& step_result(s) is Some
        &&& compilable(current_bits(s))
        &&& s.pc < case_count
        &&& hack_run_ok(execute(s), case_count, (n - 1) as nat)
    }
}

/// The jump to the next instruction's case.
proof fn lemma_next_instruction(g: WasmFrame, i: int)
    ensures
        run_code(
            seq![
                WasmInstr::I32Const((i + 1) as i32),
                WasmInstr::LocalSet(WasmLocal::JumpTarget),
                WasmInstr::Br(BranchTarget::Loop),
            ],
            g,
        ) == Some(
            if g.branch is Some {
                g
            } else {
                WasmFrame { jump_target: (i + 1) as i32, branch: Some(BranchTarget::Loop), ..g }
            },
        ),
{
    reveal_with_fuel(run_from, 4);
    assert(g.stack.push((i + 1) as i32).drop_last() =~= g.stack);
}

/// One round of the dispatch loop carries out one Hack step and makes the next PC the
/// jump target.
#[verifier::spinoff_prover]
#[verifier::rlimit(50)]
proof fn lemma_hack_dispatch_round(s: HackState, f: WasmFrame)
    requires
        can_execute(s),
        compilable(current_bits(s)),
        holds_state(f, s),
        s.pc < i32::MAX,
    ensures
        run_code(slow_case_code(current_bits(s), s.pc as int), f) matches Some(g) && holds_state(
            WasmFrame { branch: None, ..g },
            execute(s),
        ) && g.jump_target == execute(s).pc && g.branch == Some(BranchTarget::Loop) && g.stack.len() == 0,
{
    let raw = current_bits(s);
    let i = s.pc as int;
    let tail = seq![
        WasmInstr::I32Const((i + 1) as i32),
        WasmInstr::LocalSet(WasmLocal::JumpTarget),
        WasmInstr::Br(BranchTarget::Loop),
    ];
    lemma_instruction_code_executes(s, f, BranchTarget::Loop);
    lemma_run_concat(instr_code(raw, BranchTarget::Loop), tail, f);
    let g1 = run_code(instr_code(raw, BranchTarget::Loop), f).unwrap();
    lemma_next_instruction(g1, i);
    let t = execute(s);
    if is_c_instruction(raw) && jumps(s) {
        assert(t.pc == s.a);
        assert(jump_of_code(raw & 7) != JumpCondition::NoJump);
    } else {
        assert(t.pc == s.pc + 1);
    }
}

/// The dispatch loop runs a Hack program as the CPU does: where each case is its
/// instruction's case going back to the loop, each of the first `n` steps can be taken and
/// its instruction compiled, and the frame holds the state with PC as its jump target,
/// `n` rounds of the loop end in a frame that holds the state after `n` steps, with the
/// next PC as its jump target.
pub proof fn lemma_hack_dispatch_runs_as_cpu(cases: Seq<Seq<WasmInstr>>, s: HackState, f: WasmFrame, n: nat)
    requires
        cases.len() < i32::MAX,
        forall|i: int| 0 <= i < cases.len() ==> #[trigger] cases[i] == slow_case_code(s.rom[i].bits(), i),
        hack_run_ok(s, cases.len() as int, n),
        holds_state(WasmFrame { branch: None, ..f }, s),
        f.jump_target == s.pc,
    ensures
        steps_state(s, n) is Some,
        hack_dispatch_rounds(cases, f, n) matches Some(g) && holds_state(
            WasmFrame { branch: None, ..g },
            steps_state(s, n).unwrap(),
        ) && g.jump_target == steps_state(s, n).unwrap().pc,
    decreases n,
{
    if n > 0 {
        let f0 = WasmFrame { branch: None, ..f };
        lemma_hack_dispatch_round(s, f0);
        let g = run_code(cases[s.pc as int], f0).unwrap();
        let t = execute(s);
        assert(step_result(s).unwrap().0 == t);
        assert(t.rom == s.rom);
        lemma_hack_dispatch_runs_as_cpu(cases, t, g, (n - 1) as nat);
        assert(steps_state(s, n) == steps_state(t, (n - 1) as nat));
    }
}

// ---------------------------------------------------------------- the dispatch expression

/// The block that the branch table sends case `i` to: the override's block where case `i`
/// has one, else its own.
pub open spec fn override_target(overrides: Seq<(usize, i32)>, i: int) -> Option<i32>
    decreases overrides.len(),
{
    if overrides.len() == 0 {
        None
    } else if overrides[0].0 == i {
        Some(overrides[0].1)
    } else {
        override_target(overrides.drop_first(), i)
    }
}

/// The branch table of the switch over `case_count` cases.
pub open spec fn hack_table(case_count: int, overrides: Seq<(usize, i32)>) -> Seq<u32> {
    Seq::new(
        case_count as nat,
        |i: int| match override_target(overrides, i) {
            Some(t) => t as u32,
            None => i as u32,
        },
    )
}

/// Each arm closes one more block and then runs its code.
pub open spec fn hack_switch_arms(arms: Seq<Seq<WasmInstr>>) -> Seq<WasmInstr>
    decreases arms.len(),
{
    if arms.len() == 0 {
        seq![]
    } else {
        hack_switch_arms(arms.drop_last()) + seq![WasmInstr::End] + arms.last()
    }
}

/// A switch on the jump target: one block per case and one for the default, a branch table
/// into them (the table given apart, its default the last block), then the cases in order
/// and an empty default.
pub open spec fn hack_switch_code(cases: Seq<Seq<WasmInstr>>) -> Seq<WasmInstr> {
    Seq::new((cases.len() + 1) as nat, |_i: int| WasmInstr::Block) + seq![
        WasmInstr::LocalGet(WasmLocal::JumpTarget),
        WasmInstr::BrTable(cases.len() as u32),
    ] + hack_switch_arms(cases.push(seq![]))
}

/// Once the limit of instructions is reached: saves A, D and the jump target and returns
/// the number of instructions run.
pub open spec fn hack_limit_code() -> Seq<WasmInstr> {
    seq![
        WasmInstr::LocalGet(WasmLocal::Ticks),
        WasmInstr::LocalGet(WasmLocal::Limit),
        WasmInstr::I32GeU,
        WasmInstr::If,
        WasmInstr::LocalGet(WasmLocal::A),
        WasmInstr::GlobalSet(HackGlobal::A),
        WasmInstr::LocalGet(WasmLocal::D),
        WasmInstr::GlobalSet(HackGlobal::D),
        WasmInstr::LocalGet(WasmLocal::JumpTarget),
        WasmInstr::GlobalSet(HackGlobal::JumpTarget),
        WasmInstr::LocalGet(WasmLocal::Ticks),
        WasmInstr::Return,
        WasmInstr::End,
    ]
}

/// The body of the compiled `run` function: take A, D and the jump target, loop over the
/// switch of the cases (first returning once the limit is reached, where there is one),
/// then mark the program as ended and return the number of instructions run.
pub open spec fn hack_dispatch_code(cases: Seq<Seq<WasmInstr>>, with_limit: bool) -> Seq<WasmInstr> {
    seq![
        WasmInstr::GlobalGet(HackGlobal::A),
        WasmInstr::LocalSet(WasmLocal::A),
        WasmInstr::GlobalGet(HackGlobal::D),
        WasmInstr::LocalSet(WasmLocal::D),
        WasmInstr::GlobalGet(HackGlobal::JumpTarget),
        WasmInstr::LocalSet(WasmLocal::JumpTarget),
        WasmInstr::Loop,
    ] + (if with_limit {
        hack_limit_code()
    } else {
        seq![]
    }) + hack_switch_code(cases) + seq![
        WasmInstr::End,
        WasmInstr::I32Const(cases.len() as i32),
        WasmInstr::GlobalSet(HackGlobal::JumpTarget),
        WasmInstr::LocalGet(WasmLocal::Ticks),
    ]
}

/// The views of the cases.
pub open spec fn hack_case_views(cases: Seq<Vec<WasmInstr>>) -> Seq<Seq<WasmInstr>> {
    cases.map_values(|c: Vec<WasmInstr>| c@)
}

fn push_hack_arm(code: &mut Vec<WasmInstr>, arm: &Vec<WasmInstr>)
    ensures
        final(code)@ == old(code)@ + seq![WasmInstr::End] + arm@,
{
    code.push(WasmInstr::End);
    let ghost start = code@;
    let mut j: usize = 0;
    while j < arm.len()
        invariant
            j <= arm@.len(),
            start == old(code)@ + seq![WasmInstr::End],
            code@ == start + arm@.take(j as int),
        decreases arm@.len() - j,
    {
        code.push(arm[j]);
        assert(arm@.take(j + 1) =~= arm@.take(j as int).push(arm@[j as int]));
        assert(code@ =~= start + arm@.take(j + 1));
        j = j + 1;
    }
    assert(arm@.take(j as int) =~= arm@);
}

fn push_hack_switch(code: &mut Vec<WasmInstr>, cases: &Vec<Vec<WasmInstr>>)
    requires
        cases@.len() < i32::MAX,
    ensures
        final(code)@ == old(code)@ + hack_switch_code(hack_case_views(cases@)),
{
    let ghost views = hack_case_views(cases@);
    let ghost arms = views.push(seq![]);
    let case_count = cases.len();
    let ghost start = code@;
    let mut b: usize = 0;
    while b < case_count + 1
        invariant
            case_count == cases@.len() < i32::MAX,
            b <= case_count + 1,
            code@ == start + Seq::new(b as nat, |_i: int| WasmInstr::Block),
        decreases case_count + 1 - b,
    {
        code.push(WasmInstr::Block);
        assert(code@ =~= start + Seq::new((b + 1) as nat, |_i: int| WasmInstr::Block));
        b = b + 1;
    }
    code.push(WasmInstr::LocalGet(WasmLocal::JumpTarget));
    code.push(WasmInstr::BrTable(case_count as u32));
    let ghost before_arms = code@;
    assert(arms.take(0) =~= Seq::<Seq<WasmInstr>>::empty());
    assert(code@ =~= before_arms + hack_switch_arms(arms.take(0)));
    let mut k: usize = 0;
    while k < case_count
        invariant
            case_count == cases@.len() < i32::MAX,
            views == hack_case_views(cases@),
            arms == views.push(seq![]),
            k <= case_count,
            code@ == before_arms + hack_switch_arms(arms.take(k as int)),
        decreases case_count - k,
    {
        push_hack_arm(code, &cases[k]);
        proof {
            assert(arms.take(k + 1).drop_last() =~= arms.take(k as int));
            assert(arms.take(k + 1).last() == cases@[k as int]@);
            assert(code@ =~= before_arms + hack_switch_arms(arms.take(k + 1)));
        }
        k = k + 1;
    }
    let last: Vec<WasmInstr> = Vec::new();
    push_hack_arm(code, &last);
    proof {
        assert(last@ =~= Seq::<WasmInstr>::empty());
        assert(arms.drop_last() =~= arms.take(k as int));
        assert(code@ =~= before_arms + hack_switch_arms(arms));
        assert(code@ =~= start + hack_switch_code(views));
    }
}

/// The block of case `i` in the branch table.
fn table_entry(overrides: &[(usize, i32)], i: usize) -> (r: u32)
    ensures
        r == match override_target(overrides@, i as int) {
            Some(t) => t as u32,
            None => i as u32,
        },
{
    let mut k: usize = 0;
    assert(overrides@.subrange(0, overrides@.len() as int) =~= overrides@);
    while k < overrides.len()
        invariant
            k <= overrides@.len(),
            override_target(overrides@, i as int) == override_target(overrides@.subrange(k as int, overrides@.len() as int), i as int),
        decreases overrides@.len() - k,
    {
        let ghost rest = overrides@.subrange(k as int, overrides@.len() as int);
        assert(rest[0] == overrides@[k as int]);
        if overrides[k].0 == i {
            return overrides[k].1 as u32;
        }
        assert(rest.drop_first() =~= overrides@.subrange(k + 1, overrides@.len() as int));
        k = k + 1;
    }
    assert(overrides@.subrange(k as int, overrides@.len() as int).len() == 0);
    i as u32
}

/// The body of the compiled `run` function over static cases, and its branch table: A, D
/// and the jump target are taken from the globals, the loop runs the switch of the cases
/// (first returning once the limit is reached, where there is one, with A, D and the jump
/// target saved), and on leaving the loop the jump target is set past the last case.
pub fn hack_expression_from_cases(cases: Vec<Vec<WasmInstr>>, overrides: &[(usize, i32)], with_limit: bool) -> (r: (
    Vec<WasmInstr>,
    Vec<u32>,
))
    requires
        cases@.len() < i32::MAX,
    ensures
        r.0@ == hack_dispatch_code(hack_case_views(cases@), with_limit),
        r.1@ == hack_table(cases@.len() as int, overrides@),
{
    let mut code: Vec<WasmInstr> = Vec::new();
    code.push(WasmInstr::GlobalGet(HackGlobal::A));
    code.push(WasmInstr::LocalSet(WasmLocal::A));
    code.push(WasmInstr::GlobalGet(HackGlobal::D));
    code.push(WasmInstr::LocalSet(WasmLocal::D));
    code.push(WasmInstr::GlobalGet(HackGlobal::JumpTarget));
    code.push(WasmInstr::LocalSet(WasmLocal::JumpTarget));
    code.push(WasmInstr::Loop);
    if with_limit {
        code.push(WasmInstr::LocalGet(WasmLocal::Ticks));
        code.push(WasmInstr::LocalGet(WasmLocal::Limit));
        code.push(WasmInstr::I32GeU);
        code.push(WasmInstr::If);
        code.push(WasmInstr::LocalGet(WasmLocal::A));
        code.push(WasmInstr::GlobalSet(HackGlobal::A));
        code.push(WasmInstr::LocalGet(WasmLocal::D));
        code.push(WasmInstr::GlobalSet(HackGlobal::D));
        code.push(WasmInstr::LocalGet(WasmLocal::JumpTarget));
        code.push(WasmInstr::GlobalSet(HackGlobal::JumpTarget));
        code.push(WasmInstr::LocalGet(WasmLocal::Ticks));
        code.push(WasmInstr::Return);
        code.push(WasmInstr::End);
    }
    let ghost head = code@;
    push_hack_switch(&mut code, &cases);
    code.push(WasmInstr::End);
    code.push(WasmInstr::I32Const(cases.len() as i32));
    code.push(WasmInstr::GlobalSet(HackGlobal::JumpTarget));
    code.push(WasmInstr::LocalGet(WasmLocal::Ticks));
    assert(code@ =~= hack_dispatch_code(hack_case_views(cases@), with_limit));
    let mut table: Vec<u32> = Vec::new();
    let mut i: usize = 0;
    while i < cases.len()
        invariant
            i <= cases@.len(),
            table@.len() == i,
            forall|x: int| 0 <= x < i ==> table@[x] == hack_table(cases@.len() as int, overrides@)[x],
        decreases cases@.len() - i,
    {
        let e = table_entry(overrides, i);
        table.push(e);
        i = i + 1;
    }
    assert(table@ =~= hack_table(cases@.len() as int, overrides@));
    (code, table)
}

} // verus!

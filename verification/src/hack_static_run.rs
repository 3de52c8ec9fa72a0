use vstd::prelude::*;

use crate::hack_to_wasm::{
    a_after, block_a, block_code, block_target, fallthrough_code, hack_run_ok, hack_table, holds_state, instr_code,
    lemma_instruction_code_executes, lemma_run_concat, override_starts, override_target, run_code, run_from,
    static_cases_of, strictly_increasing, BranchTarget, WasmFrame, WasmInstr,
};
use crate::hardware::{current_bits, execute, is_c_instruction, jumps, step_result, steps_state, HackState};

verus! {

/// The case that runs a Hack program from PC `pc` in the static layout of `n` instructions:
/// the block of `pc` where a case starts there, else the case of instruction `pc`.
pub open spec fn case_of(starts: Seq<int>, n: int, pc: int) -> int {
    if starts.contains(pc) {
        n + 1 + starts.index_of(pc)
    } else {
        pc
    }
}

/// The case the switch goes on with after case `c` left `g`: the next case where no branch
/// was taken, the case that many blocks out for a branch out of blocks, and for a branch
/// back to the dispatch loop the case the branch table gives for the jump target (none
/// where the target is outside the table).
pub open spec fn hack_case_after(table: Seq<u32>, c: int, g: WasmFrame) -> int {
    match g.branch {
        None => c + 1,
        Some(BranchTarget::Depth(k)) => c + 1 + k,
        Some(BranchTarget::Loop) => if 0 <= g.jump_target < table.len() {
            table[g.jump_target as int] as int
        } else {
            -1
        },
    }
}

/// The switch of the static layout, `r` cases of it: each case runs from where the last
/// one left off and the switch goes on as `hack_case_after` says. `None` where a case names
/// no case or leaves values on the operand stack. The case reached and the frame.
pub open spec fn hack_switch_runs(cases: Seq<Seq<WasmInstr>>, table: Seq<u32>, c: int, f: WasmFrame, r: nat) -> Option<
    (int, WasmFrame),
>
    decreases r,
{
    if r == 0 {
        Some((c, f))
    } else if !(0 <= c < cases.len()) {
        None
    } else {
        match run_code(cases[c], WasmFrame { branch: None, ..f }) {
            None => None,
            Some(g) => if g.stack.len() == 0 {
                hack_switch_runs(cases, table, hack_case_after(table, c, g), g, (r - 1) as nat)
            } else {
                None
            },
        }
    }
}

/// The code of block `k` from instruction `i` up to (not including) instruction `hi`.
pub open spec fn block_code_from(bits: Seq<u16>, starts: Seq<int>, k: int, i: int, hi: int) -> Seq<WasmInstr>
    decreases hi - i,
{
    if i >= hi {
        seq![]
    } else {
        instr_code(bits[i], block_target(bits, starts, k, i)) + block_code_from(bits, starts, k, i + 1, hi)
    }
}

/// How many instructions the CPU runs in block `k` from `s`: up to a jump taken or the
/// end of the block.
pub open spec fn block_run_len(starts: Seq<int>, k: int, s: HackState) -> nat
    decreases starts[k + 1] - s.pc,
{
    let t = execute(s);
    if (is_c_instruction(current_bits(s)) && jumps(s)) || t.pc != s.pc + 1 || t.pc >= starts[k + 1] {
        1
    } else {
        1 + block_run_len(starts, k, t)
    }
}

/// How many instructions the CPU runs in the case that runs the program from `s`: the run
/// of the block where a case starts at PC, else the one instruction.
pub open spec fn hack_case_len(starts: Seq<int>, s: HackState) -> nat {
    if starts.contains(s.pc as int) {
        block_run_len(starts, starts.index_of(s.pc as int), s)
    } else {
        1
    }
}

/// How many instructions the CPU runs in `r` cases run one after another from `s`.
pub open spec fn hack_switch_len(starts: Seq<int>, s: HackState, r: nat) -> nat
    decreases r,
{
    if r == 0 {
        0
    } else {
        let len = hack_case_len(starts, s);
        len + hack_switch_len(starts, steps_state(s, len).unwrap(), (r - 1) as nat)
    }
}

/// Each of `r` cases run one after another from `s` starts at an instruction of the
/// program, and each of the steps the CPU takes in it can be taken, with its instruction
/// compiled and in the program.
pub open spec fn hack_switch_ok(starts: Seq<int>, n: int, s: HackState, r: nat) -> bool
    decreases r,
{
    if r == 0 {
        true
    } else {
        let len = hack_case_len(starts, s);
        &&& 0 <= s.pc < n
        &&& hack_run_ok(s, n, len)
        &&& hack_switch_ok(starts, n, steps_state(s, len).unwrap(), (r - 1) as nat)
    }
}

/// `m` steps and then `k` more are `m + k` steps.
proof fn lemma_steps_state_split(s: HackState, m: nat, k: nat)
    requires
        steps_state(s, m) is Some,
    ensures
        steps_state(s, m + k) == steps_state(steps_state(s, m).unwrap(), k),
    decreases m,
{
    if m > 0 {
        let t = step_result(s).unwrap().0;
        lemma_steps_state_split(t, (m - 1) as nat, k);
        assert((m + k - 1) as nat == ((m - 1) as nat + k) as nat);
    }
}

/// The block of the static layout is its code from its start.
proof fn lemma_block_code_from(bits: Seq<u16>, starts: Seq<int>, k: int, i: int, hi: int)
    requires
        starts[k] <= i <= hi,
    ensures
        block_code(bits, starts, k, hi) == block_code(bits, starts, k, i) + block_code_from(bits, starts, k, i, hi),
    decreases hi - i,
{
    if i < hi {
        lemma_block_code_from(bits, starts, k, i + 1, hi);
        let ins = instr_code(bits[i], block_target(bits, starts, k, i));
        assert(block_code(bits, starts, k, i + 1) == block_code(bits, starts, k, i) + ins);
        assert(block_code_from(bits, starts, k, i, hi) == ins + block_code_from(bits, starts, k, i + 1, hi));
        assert((block_code(bits, starts, k, i) + ins) + block_code_from(bits, starts, k, i + 1, hi) =~= block_code(
            bits,
            starts,
            k,
            i,
        ) + (ins + block_code_from(bits, starts, k, i + 1, hi)));
    } else {
        assert(block_code(bits, starts, k, i) + seq![] =~= block_code(bits, starts, k, i));
    }
}

/// The branch table holds, for an override of case start `t`, its block.
proof fn lemma_override_target(overrides: Seq<(usize, i32)>, t: int, idx: int)
    requires
        strictly_increasing(override_starts(overrides)),
        0 <= idx < overrides.len(),
        overrides[idx].0 == t,
    ensures
        override_target(overrides, t) == Some(overrides[idx].1),
    decreases overrides.len(),
{
    let starts = override_starts(overrides);
    if overrides[0].0 != t {
        assert(idx > 0);
        let rest = overrides.drop_first();
        assert(override_starts(rest) =~= starts.drop_first());
        lemma_override_target(rest, t, idx - 1);
    } else if idx > 0 {
        assert(starts[0] < starts[idx]);
    }
}

/// The branch table holds nothing for a case that no override names.
proof fn lemma_override_none(overrides: Seq<(usize, i32)>, t: int)
    requires
        !override_starts(overrides).contains(t),
    ensures
        override_target(overrides, t) is None,
    decreases overrides.len(),
{
    let starts = override_starts(overrides);
    if overrides.len() > 0 {
        assert(starts[0] == overrides[0].0);
        let rest = overrides.drop_first();
        assert(override_starts(rest) =~= starts.drop_first());
        if override_starts(rest).contains(t) {
            let j = choose|j: int| 0 <= j < override_starts(rest).len() && override_starts(rest)[j] == t;
            assert(starts[j + 1] == t);
        }
        lemma_override_none(rest, t);
    }
}

/// The facts of the static layout the runs rest on: where cases start, and that the
/// branch table sends each instruction of the program to its case.
proof fn lemma_layout_facts(bits: Seq<u16>, cases: Seq<Seq<WasmInstr>>, overrides: Seq<(usize, i32)>)
    requires
        static_cases_of(bits, cases, overrides),
        cases.len() < i32::MAX,
    ensures
        ({
            let starts = override_starts(overrides);
            let n = bits.len() as int;
            let table = hack_table(cases.len() as int, overrides);
            &&& starts.contains(n)
            &&& starts.contains(0)
            &&& 0 <= starts.index_of(n) < starts.len()
            &&& starts[starts.index_of(n)] == n
            &&& starts.len() + n <= i32::MAX
            &&& forall|t: int| 0 <= t < n ==> 0 <= #[trigger] case_of(starts, n, t) < cases.len()
            &&& forall|t: int| 0 <= t < n ==> table.len() == cases.len() && #[trigger] table[t] as int == case_of(starts, n, t)
            &&& forall|j: int| 0 <= j < starts.len() ==> #[trigger] starts.index_of(starts[j]) == j
        }),
{
    let starts = override_starts(overrides);
    let n = bits.len() as int;
    let table = hack_table(cases.len() as int, overrides);
    assert(crate::hack_to_wasm::is_case_start(bits, n));
    assert(crate::hack_to_wasm::is_case_start(bits, 0));
    assert(starts.contains(n));
    assert(starts.contains(0));
    let last = (starts.len() - 1) as int;
    assert(overrides[last].1 == last + n + 1);
    assert forall|j: int| 0 <= j < starts.len() implies #[trigger] starts.index_of(starts[j]) == j by {
        assert(starts.contains(starts[j]));
        let x = starts.index_of(starts[j]);
        if x < j {
            assert(starts[x] < starts[j]);
        } else if x > j {
            assert(starts[j] < starts[x]);
        }
    }
    assert forall|t: int| 0 <= t < n implies 0 <= #[trigger] case_of(starts, n, t) < cases.len() by {
        if starts.contains(t) {
            let x = starts.index_of(t);
            let y = starts.index_of(n);
            if x >= y {
                if x > y {
                    assert(starts[y] < starts[x]);
                }
            }
        }
    }
    assert forall|t: int| 0 <= t < n implies table.len() == cases.len() && #[trigger] table[t] as int == case_of(starts, n, t) by {
        if starts.contains(t) {
            let x = starts.index_of(t);
            lemma_override_target(overrides, t, x);
            assert(overrides[x].1 == x + n + 1);
        } else {
            lemma_override_none(overrides, t);
        }
    }
}

/// The branch of one instruction.
proof fn lemma_br(g: WasmFrame, x: BranchTarget)
    requires
        g.branch is None,
    ensures
        run_code(seq![WasmInstr::Br(x)], g) == Some(WasmFrame { branch: Some(x), ..g }),
{
    reveal_with_fuel(run_from, 2);
}

/// An A-instruction's word is the value it loads.
proof fn lemma_a_word(raw: u16)
    requires
        !is_c_instruction(raw),
    ensures
        (raw as i16) as int == raw as int,
{
    assert(raw & (1u16 << 15u32) == 0 ==> (raw as i16) as int == raw as int) by (bit_vector);
}

/// The case of instruction `i` runs that instruction as the CPU does and goes on with the
/// case that runs the program from the next PC: through the dispatch loop where the
/// instruction jumps, else into the next instruction's block or case.
#[verifier::spinoff_prover]
#[verifier::rlimit(60)]
proof fn lemma_instr_case_run(bits: Seq<u16>, cases: Seq<Seq<WasmInstr>>, overrides: Seq<(usize, i32)>, s: HackState, f: WasmFrame)
    requires
        static_cases_of(bits, cases, overrides),
        cases.len() < i32::MAX,
        forall|i: int| 0 <= i < bits.len() ==> #[trigger] s.rom[i].bits() == bits[i],
        hack_run_ok(s, bits.len() as int, 1),
        0 <= s.pc,
        holds_state(f, s),
    ensures
        ({
            let starts = override_starts(overrides);
            let n = bits.len() as int;
            let t = execute(s);
            &&& run_code(cases[s.pc as int], f) matches Some(g) && g.stack.len() == 0 && holds_state(
                WasmFrame { branch: None, ..g },
                t,
            ) && (0 <= t.pc < n ==> hack_case_after(hack_table(cases.len() as int, overrides), s.pc as int, g)
                == case_of(starts, n, t.pc as int))
        }),
{
    let starts = override_starts(overrides);
    let n = bits.len() as int;
    let i = s.pc as int;
    let raw = current_bits(s);
    lemma_layout_facts(bits, cases, overrides);
    assert(raw == bits[i]);
    lemma_instruction_code_executes(s, f, BranchTarget::Loop);
    let code = instr_code(raw, BranchTarget::Loop);
    let tail = fallthrough_code(starts, n, i);
    assert(cases[i] == code + tail);
    lemma_run_concat(code, tail, f);
    let g1 = run_code(code, f).unwrap();
    let t = execute(s);
    if is_c_instruction(raw) && jumps(s) {
        assert(run_code(tail, g1) == Some(g1));
    } else {
        assert(t.pc == s.pc + 1);
        if starts.contains(i + 1) {
            let x = starts.index_of(i + 1);
            assert(overrides[x].1 == x + n + 1);
            lemma_br(g1, BranchTarget::Depth((x + n - i) as u32));
        } else {
            assert(run_code(tail, g1) == Some(g1));
        }
    }
}

/// The run of block `k` from instruction `s.pc` runs the CPU's instructions up to a jump
/// taken or the end of the block, and goes on with the case that runs the program from the
/// next PC: out of blocks to a case start that the jump's A was known to name, through the
/// dispatch loop for another jump, and into the next block at the end of the block.
#[verifier::spinoff_prover]
#[verifier::rlimit(80)]
proof fn lemma_block_run(
    bits: Seq<u16>,
    cases: Seq<Seq<WasmInstr>>,
    overrides: Seq<(usize, i32)>,
    k: int,
    s: HackState,
    f: WasmFrame,
)
    requires
        static_cases_of(bits, cases, overrides),
        cases.len() < i32::MAX,
        forall|i: int| 0 <= i < bits.len() ==> #[trigger] s.rom[i].bits() == bits[i],
        0 <= k < override_starts(overrides).index_of(bits.len() as int),
        override_starts(overrides)[k] <= s.pc < override_starts(overrides)[k + 1],
        block_a(bits, override_starts(overrides), s.pc as int) matches Some(a) ==> s.a == a,
        holds_state(f, s),
        hack_run_ok(s, bits.len() as int, block_run_len(override_starts(overrides), k, s)),
    ensures
        ({
            let starts = override_starts(overrides);
            let n = bits.len() as int;
            let len = block_run_len(starts, k, s);
            &&& steps_state(s, len) is Some
            &&& run_code(block_code_from(bits, starts, k, s.pc as int, starts[k + 1]), f) matches Some(g) && g.stack.len()
                == 0 && holds_state(WasmFrame { branch: None, ..g }, steps_state(s, len).unwrap()) && (0
                <= steps_state(s, len).unwrap().pc < n ==> hack_case_after(
                hack_table(cases.len() as int, overrides),
                n + 1 + k,
                g,
            ) == case_of(starts, n, steps_state(s, len).unwrap().pc as int))
        }),
    decreases override_starts(overrides)[k + 1] - s.pc,
{
    let starts = override_starts(overrides);
    let n = bits.len() as int;
    let i = s.pc as int;
    let hi = starts[k + 1];
    let raw = current_bits(s);
    let table = hack_table(cases.len() as int, overrides);
    lemma_layout_facts(bits, cases, overrides);
    let y = starts.index_of(n);
    if k + 1 < y {
        assert(starts[k + 1] < starts[y]);
    }
    assert(hi <= n);
    assert(raw == bits[i]);
    let target = block_target(bits, starts, k, i);
    lemma_instruction_code_executes(s, f, target);
    let code = instr_code(raw, target);
    let rest = block_code_from(bits, starts, k, i + 1, hi);
    assert(block_code_from(bits, starts, k, i, hi) == code + rest);
    lemma_run_concat(code, rest, f);
    let g1 = run_code(code, f).unwrap();
    let t = execute(s);
    assert(step_result(s).unwrap().0 == t);
    assert(steps_state(t, 0) == Some(t));
    if is_c_instruction(raw) && jumps(s) {
        assert(run_code(rest, g1) == Some(g1));
        assert(block_run_len(starts, k, s) == 1);
        assert(steps_state(s, 1) == Some(t));
        assert(t.pc == s.a);
        match block_a(bits, starts, i) {
            Some(a) => {
                if starts.contains(a) && starts.index_of(a) - 1 - k >= 0 {
                    let x = starts.index_of(a);
                    assert(overrides[x].1 == x + n + 1);
                    assert(target == BranchTarget::Depth((x - 1 - k) as u32));
                } else {
                    assert(target == BranchTarget::Loop);
                }
            },
            None => {
                assert(target == BranchTarget::Loop);
            },
        }
    } else {
        assert(t.pc == s.pc + 1);
        assert(g1.branch is None);
        if t.pc >= hi {
            assert(block_run_len(starts, k, s) == 1);
            assert(steps_state(s, 1) == Some(t));
            assert(rest == Seq::<WasmInstr>::empty());
            assert(run_code(rest, g1) == Some(g1));
            assert(starts.contains(hi));
            assert(starts.index_of(hi) == k + 1);
        } else {
            let m = block_run_len(starts, k, t);
            assert(block_run_len(starts, k, s) == 1 + m);
            assert(steps_state(s, 1 + m) == steps_state(t, m));
            if starts.contains(i + 1) {
                let x = starts.index_of(i + 1);
                if x <= k {
                    assert(starts[x] <= starts[k]);
                } else if x >= k + 1 {
                    assert(starts[k + 1] <= starts[x]);
                }
            }
            assert(block_a(bits, starts, i + 1) == a_after(block_a(bits, starts, i), raw));
            if !is_c_instruction(raw) {
                lemma_a_word(raw);
            }
            assert(WasmFrame { branch: None, ..g1 } == g1);
            lemma_block_run(bits, cases, overrides, k, t, g1);
        }
    }
}

/// The static layout runs a Hack program as the CPU does: where the frame holds the state,
/// and each of `r` cases run one after another from the case of PC starts at an
/// instruction of the program whose steps can be taken, the switch over the cases (with
/// the branch table that sends each PC to its case) ends in a frame that holds the state
/// after the CPU has run the instructions of those cases, at the case that runs the
/// program from the next PC (where it is an instruction of the program).
pub proof fn lemma_hack_static_runs_as_cpu(
    bits: Seq<u16>,
    cases: Seq<Seq<WasmInstr>>,
    overrides: Seq<(usize, i32)>,
    s: HackState,
    f: WasmFrame,
    r: nat,
)
    requires
        static_cases_of(bits, cases, overrides),
        cases.len() < i32::MAX,
        forall|i: int| 0 <= i < bits.len() ==> #[trigger] s.rom[i].bits() == bits[i],
        hack_switch_ok(override_starts(overrides), bits.len() as int, s, r),
        holds_state(WasmFrame { branch: None, ..f }, s),
    ensures
        ({
            let starts = override_starts(overrides);
            let n = bits.len() as int;
            let m = hack_switch_len(starts, s, r);
            &&& steps_state(s, m) is Some
            &&& hack_switch_runs(
                cases,
                hack_table(cases.len() as int, overrides),
                case_of(starts, n, s.pc as int),
                f,
                r,
            ) matches Some((c2, g)) && holds_state(WasmFrame { branch: None, ..g }, steps_state(s, m).unwrap()) && (0
                <= steps_state(s, m).unwrap().pc < n ==> c2 == case_of(starts, n, steps_state(s, m).unwrap().pc as int))
        }),
    decreases r,
{
    if r > 0 {
        let starts = override_starts(overrides);
        let n = bits.len() as int;
        let table = hack_table(cases.len() as int, overrides);
        let i = s.pc as int;
        let c = case_of(starts, n, i);
        let f0 = WasmFrame { branch: None, ..f };
        let len = hack_case_len(starts, s);
        lemma_layout_facts(bits, cases, overrides);
        if starts.contains(i) {
            let k = starts.index_of(i);
            let y = starts.index_of(n);
            if k >= y {
                if k > y {
                    assert(starts[y] < starts[k]);
                }
            }
            assert(starts[k] < starts[k + 1]);
            lemma_block_code_from(bits, starts, k, starts[k], starts[k + 1]);
            assert(block_code(bits, starts, k, starts[k]) == Seq::<WasmInstr>::empty());
            assert(cases[n + 1 + k] == block_code(bits, starts, k, starts[k + 1]));
            assert(cases[c] =~= block_code_from(bits, starts, k, i, starts[k + 1]));
            assert(block_a(bits, starts, i) is None);
            lemma_block_run(bits, cases, overrides, k, s, f0);
        } else {
            lemma_instr_case_run(bits, cases, overrides, s, f0);
            assert(steps_state(execute(s), 0) == Some(execute(s)));
            assert(step_result(s).unwrap().0 == execute(s));
        }
        let g = run_code(cases[c], f0).unwrap();
        let t = steps_state(s, len).unwrap();
        assert(t.rom == s.rom) by {
            lemma_steps_keep_rom(s, len);
        }
        lemma_hack_static_runs_as_cpu(bits, cases, overrides, t, g, (r - 1) as nat);
        let c1 = hack_case_after(table, c, g);
        assert(0 <= c < cases.len());
        assert(hack_switch_runs(cases, table, c, f, r) == hack_switch_runs(cases, table, c1, g, (r - 1) as nat));
        if r == 1 {
            assert(hack_switch_runs(cases, table, c1, g, 0) == Some((c1, g)));
            assert(hack_switch_len(starts, t, 0) == 0);
            assert(steps_state(t, 0) == Some(t));
        } else {
            assert(0 <= t.pc < n);
            assert(c1 == case_of(starts, n, t.pc as int));
        }
        let rest = hack_switch_len(starts, t, (r - 1) as nat);
        lemma_steps_state_split(s, len, rest);
        assert(hack_switch_len(starts, s, r) == len + rest);
    }
}

/// Steps keep the ROM.
proof fn lemma_steps_keep_rom(s: HackState, m: nat)
    requires
        steps_state(s, m) is Some,
    ensures
        steps_state(s, m).unwrap().rom == s.rom,
    decreases m,
{
    if m > 0 {
        let t = step_result(s).unwrap().0;
        assert(t == execute(s));
        lemma_steps_keep_rom(t, (m - 1) as nat);
    }
}

} // verus!

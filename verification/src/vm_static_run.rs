use vstd::prelude::*;

use crate::hardware::Word;
use crate::vm::{lemma_vm_steps_split, vm_step, vm_steps, Command, FileSpec, ProgramSpec, RunSpec};
use crate::vm_to_wasm::{
    build_cases, build_step, case_command_code, case_jump, function_at, drop_code, flat_commands, program_scan, static_program_cases,
    label_key, scan_cases, CaseBuild, CaseScan, VmBranch, VmInstr,
};
use crate::vm_wasm_run::{
    call_saved, frame_holds_kept, frame_run, frame_saved, in_place_call, is_stack_command, jump_label, jump_taken,
    kept_compiles, lemma_command_code_steps, lemma_drop_code_stores, lemma_frame_run_concat,
    lemma_static_arithmetic_call_steps, lemma_static_call_steps, lemma_static_clear_screen_steps, lemma_static_memory_init_steps, lemma_static_dealloc_steps, lemma_static_jump_steps, lemma_static_return_steps,
    lemma_vm_step_stack, return_saved, VmFrame,
};
use crate::os::os_function;

verus! {

/// How many commands the case that holds command `i` has from `i` on: up to the next
/// command at which a case starts.
pub open spec fn case_len(scan: CaseScan, flat: Seq<(Word, Command)>, i: int) -> nat
    decreases flat.len() - i,
{
    if i + 1 >= flat.len() || scan.starts.contains(i + 1) {
        1
    } else {
        1 + case_len(scan, flat, i + 1)
    }
}

/// The code of the case that holds command `i`, from `i` on, with the second pass at `b`:
/// each command's code in turn, then, after the last one, its kept values moved to RAM.
pub open spec fn case_rest(scan: CaseScan, flat: Seq<(Word, Command)>, i: int, b: CaseBuild) -> Seq<VmInstr>
    decreases flat.len() - i,
{
    if i < 0 || i >= flat.len() {
        seq![]
    } else {
        let code = case_command_code(scan, b, i, flat[i].0, flat[i].1);
        if i + 1 >= flat.len() || scan.starts.contains(i + 1) {
            code.0 + drop_code(code.1)
        } else {
            code.0 + case_rest(scan, flat, i + 1, build_step(scan, b, i, flat[i].0, flat[i].1))
        }
    }
}

/// The second pass leaves a case that starts at `i` with no code and no kept values yet.
proof fn lemma_case_start_empty(scan: CaseScan, flat: Seq<(Word, Command)>, i: int)
    requires
        0 <= i <= flat.len(),
        i == 0 || scan.starts.contains(i),
    ensures
        build_cases(scan, flat, i).current == Seq::<VmInstr>::empty(),
        build_cases(scan, flat, i).kept == 0,
{
}

/// The second pass only adds cases: what it has built after `k` commands stays in place.
proof fn lemma_build_prefix(scan: CaseScan, flat: Seq<(Word, Command)>, k: int, n: int)
    requires
        0 <= k <= n,
    ensures
        build_cases(scan, flat, k).cases.len() <= build_cases(scan, flat, n).cases.len(),
        forall|t: int|
            0 <= t < build_cases(scan, flat, k).cases.len() ==> #[trigger] build_cases(scan, flat, n).cases[t]
                == build_cases(scan, flat, k).cases[t],
    decreases n - k,
{
    if k < n {
        lemma_build_prefix(scan, flat, k, n - 1);
    }
}

/// The case that holds command `i` is closed after `case_len` commands, with the code
/// built so far followed by `case_rest`.
proof fn lemma_case_closes(scan: CaseScan, flat: Seq<(Word, Command)>, i: int)
    requires
        0 <= i < flat.len(),
        scan.starts.contains(flat.len() as int),
    ensures
        i + case_len(scan, flat, i) <= flat.len(),
        build_cases(scan, flat, i + case_len(scan, flat, i)).cases == build_cases(scan, flat, i).cases.push(
            build_cases(scan, flat, i).current + case_rest(scan, flat, i, build_cases(scan, flat, i)),
        ),
    decreases flat.len() - i,
{
    let b = build_cases(scan, flat, i);
    let code = case_command_code(scan, b, i, flat[i].0, flat[i].1);
    assert(build_cases(scan, flat, i + 1) == build_step(scan, b, i, flat[i].0, flat[i].1));
    if i + 1 >= flat.len() || scan.starts.contains(i + 1) {
        assert(scan.starts.contains(i + 1));
        assert(case_len(scan, flat, i) == 1);
        assert(case_rest(scan, flat, i, b) == code.0 + drop_code(code.1));
        assert((b.current + code.0) + drop_code(code.1) =~= b.current + (code.0 + drop_code(code.1)));
    } else {
        lemma_case_closes(scan, flat, i + 1);
        let b1 = build_cases(scan, flat, i + 1);
        assert(case_len(scan, flat, i) == 1 + case_len(scan, flat, i + 1));
        assert(i + case_len(scan, flat, i) == (i + 1) + case_len(scan, flat, i + 1));
        assert(b1.cases == b.cases);
        assert(b1.current == b.current + code.0);
        assert(case_rest(scan, flat, i, b) == code.0 + case_rest(scan, flat, i + 1, b1));
        assert(b1.current + case_rest(scan, flat, i + 1, b1) =~= b.current + case_rest(scan, flat, i, b));
    }
}

// ---------------------------------------------------------------- runs across cases

/// Case `j` of the second pass starts at command `i`.
pub open spec fn arm_starts_at(scan: CaseScan, flat: Seq<(Word, Command)>, j: int, i: int) -> bool {
    &&& 0 <= i < flat.len()
    &&& i == 0 || scan.starts.contains(i)
    &&& build_cases(scan, flat, i).cases.len() == j
}

/// The case that holds command `i` ends after it.
pub open spec fn case_closes(scan: CaseScan, flat: Seq<(Word, Command)>, i: int) -> bool {
    i + 1 >= flat.len() || scan.starts.contains(i + 1)
}

/// The label key of a jump command in the second pass at `b`.
pub open spec fn jump_key(b: CaseBuild, c: Command) -> Seq<char> {
    label_key(function_at(b, c).unwrap(), jump_label(c))
}

/// Whether the VM's step of command `c` on `ram` ends the run of its case with a branch: a
/// jump that is taken, a call through a frame, or a return.
pub open spec fn run_ending(c: Command, ram: Seq<Word>) -> bool {
    ||| (c is Goto || c is IfGoto) && jump_taken(c, ram)
    ||| c is Return
    ||| c matches Command::Call(name, _) && !in_place_call(name)
}

/// The case a command that ends the run of its case branches to: the label's case for a
/// jump, the function's case for a call, and for a return the case saved in the frame it
/// returns from.
pub open spec fn ending_case(scan: CaseScan, b: CaseBuild, c: Command, s: RunSpec, saved: Map<int, i32>) -> int {
    match c {
        Command::Call(name, _) => scan.functions[name] as int,
        Command::Return => saved[s.ram[1] - 5] as int,
        _ => scan.labels[jump_key(b, c)] as int,
    }
}

/// The words of saved frames after command `i`: a call through a frame saves its frame at
/// SP, a return leaves those below argument 0, and other commands keep them.
pub open spec fn saved_after(scan: CaseScan, i: int, c: Command, s: RunSpec, saved: Map<int, i32>) -> Map<int, i32> {
    match c {
        Command::Call(name, _) => if in_place_call(name) {
            saved
        } else {
            call_saved(saved, s.ram, s.ram[0] as int, scan.calls[(i + 1) as usize])
        },
        Command::Return => return_saved(saved, s.ram[2] as int),
        _ => saved,
    }
}

/// The frame the switch goes on with after a case: a branch leaves the operand stack.
pub open spec fn case_exit(g: VmFrame) -> VmFrame {
    if g.branch is Some {
        VmFrame { stack: Seq::empty(), ..g }
    } else {
        g
    }
}

/// The commands of the case that holds command `i`, from `i` on, as the VM runs them from
/// `s` until the case ends or a command branches, meet the conditions of their code: the
/// VM is at each command in a file with its static segment and its step can be taken; a
/// stack command's words lie where its code reads and writes them, apart from the words of
/// saved frames (`saved`); a jump's label is known in its function, and where the jump is
/// taken, the case of the label starts at the command the VM jumps to; `Math.multiply` and
/// `Math.divide`, computed in place, take two arguments that lie where their code reads
/// them; `Screen.clearScreen` and `Memory.init`, also run in place, take none and find
/// the stack below the screen and the heap; `Memory.deAlloc` and `Array.dispose`, run in
/// place too, free a block that lies above the stack, which lies below the heap; a call through a frame names a function that is not the VM's own, whose case
/// starts at the command the VM calls; and a return returns from a frame saved by its
/// call, above argument 0, to a command at which the saved case starts.
pub open spec fn case_steps_ok(
    p: ProgramSpec,
    s: RunSpec,
    scan: CaseScan,
    flat: Seq<(Word, Command)>,
    i: int,
    b: CaseBuild,
    saved: Map<int, i32>,
) -> bool
    decreases flat.len() - i,
{
    let c = flat[i].1;
    let next = build_step(scan, b, i, flat[i].0, c);
    &&& 0 <= i < flat.len()
    &&& i < i32::MAX
    &&& s.current_command_index == i
    &&& i < p.commands.len()
    &&& p.commands[i] == c
    &&& s.current_file_index < p.files.len()
    &&& p.files[s.current_file_index as int].static_start == flat[i].0
    &&& vm_step(p, s) is Some
    &&& if is_stack_command(c) {
        &&& kept_compiles(c, s.ram, flat[i].0, b.kept, saved)
        &&& case_closes(scan, flat, i) || case_steps_ok(p, vm_step(p, s).unwrap(), scan, flat, i + 1, next, saved)
    } else if c is Goto || c is IfGoto {
        &&& function_at(b, c) is Some
        &&& scan.labels.dom().contains(jump_key(b, c))
        &&& c is IfGoto && b.kept == 0 ==> 6 <= s.ram[0] && !saved.dom().contains(s.ram[0] - 1)
        &&& if jump_taken(c, s.ram) {
            arm_starts_at(scan, flat, scan.labels[jump_key(b, c)] as int, vm_step(p, s).unwrap().current_command_index as int)
        } else {
            case_closes(scan, flat, i) || case_steps_ok(p, vm_step(p, s).unwrap(), scan, flat, i + 1, next, saved)
        }
    } else {
        match c {
            Command::Call(name, n) => if name == "Math.multiply"@ || name == "Math.divide"@ {
                &&& n == 2
                &&& i + 1 <= i16::MAX
                &&& b.kept <= 1 ==> 7 <= s.ram[0] && !saved.dom().contains(s.ram[0] - 2)
                &&& b.kept == 0 ==> !saved.dom().contains(s.ram[0] - 1)
                &&& case_closes(scan, flat, i) || case_steps_ok(p, vm_step(p, s).unwrap(), scan, flat, i + 1, next, saved)
            } else if name == "Screen.clearScreen"@ {
                &&& n == 0
                &&& i + 1 <= i16::MAX
                &&& s.ram[0] + 6 < 16384
                &&& case_closes(scan, flat, i) || case_steps_ok(p, vm_step(p, s).unwrap(), scan, flat, i + 1, next, saved)
            } else if name == "Memory.init"@ {
                &&& n == 0
                &&& i + 1 <= i16::MAX
                &&& s.ram[0] + 6 < 2048
                &&& case_closes(scan, flat, i) || case_steps_ok(p, vm_step(p, s).unwrap(), scan, flat, i + 1, next, saved)
            } else if name == "Memory.deAlloc"@ || name == "Array.dispose"@ {
                &&& n == 1
                &&& i + 1 <= i16::MAX
                &&& s.ram[0] <= 2048
                &&& b.kept == 0 ==> 6 <= s.ram[0] && !saved.dom().contains(s.ram[0] - 1)
                &&& s.ram[s.ram[0] - 1] >= s.ram[0]
                &&& case_closes(scan, flat, i) || case_steps_ok(p, vm_step(p, s).unwrap(), scan, flat, i + 1, next, saved)
            } else {
                &&& os_function(name) is None
                &&& !in_place_call(name)
                &&& 0 <= n
                &&& scan.functions.dom().contains(name)
                &&& arm_starts_at(scan, flat, scan.functions[name] as int, vm_step(p, s).unwrap().current_command_index as int)
            },
            Command::Return => {
                &&& b.kept == 0 ==> 6 <= s.ram[0] && !saved.dom().contains(s.ram[0] - 1)
                &&& 10 <= s.ram[1]
                &&& frame_saved(saved, s.ram, s.ram[1] - 5)
                &&& 5 <= s.ram[2] <= s.ram[1] - 5
                &&& 0 <= s.ram[s.ram[1] - 5]
                &&& arm_starts_at(scan, flat, saved[s.ram[1] - 5] as int, vm_step(p, s).unwrap().current_command_index as int)
            },
            _ => false,
        }
    }
}

/// Whether command `i`, run by the VM from `s`, ends the run of its case: the case closes
/// after it, or it branches.
pub open spec fn case_run_ends(scan: CaseScan, flat: Seq<(Word, Command)>, i: int, s: RunSpec) -> bool {
    case_closes(scan, flat, i) || run_ending(flat[i].1, s.ram)
}

/// How many commands the VM runs in the case that holds command `i`, from `i` on, until the
/// case ends or a command branches.
pub open spec fn case_run_len(p: ProgramSpec, s: RunSpec, scan: CaseScan, flat: Seq<(Word, Command)>, i: int) -> nat
    decreases flat.len() - i,
{
    if i < 0 || i >= flat.len() || case_run_ends(scan, flat, i, s) {
        1
    } else {
        1 + case_run_len(p, vm_step(p, s).unwrap(), scan, flat, i + 1)
    }
}

/// The case that runs after the run of the case that holds command `i`: the case a
/// branching command goes to, else the next case.
pub open spec fn case_run_next(
    p: ProgramSpec,
    s: RunSpec,
    scan: CaseScan,
    flat: Seq<(Word, Command)>,
    i: int,
    b: CaseBuild,
    saved: Map<int, i32>,
) -> int
    decreases flat.len() - i,
{
    let c = flat[i].1;
    if i < 0 || i >= flat.len() {
        -1
    } else if run_ending(c, s.ram) {
        ending_case(scan, b, c, s, saved)
    } else if case_closes(scan, flat, i) {
        b.cases.len() + 1int
    } else {
        case_run_next(p, vm_step(p, s).unwrap(), scan, flat, i + 1, build_step(scan, b, i, flat[i].0, c), saved)
    }
}

/// The words of saved frames after the run of the case that holds command `i`.
pub open spec fn case_run_saved(
    p: ProgramSpec,
    s: RunSpec,
    scan: CaseScan,
    flat: Seq<(Word, Command)>,
    i: int,
    saved: Map<int, i32>,
) -> Map<int, i32>
    decreases flat.len() - i,
{
    let c = flat[i].1;
    if i < 0 || i >= flat.len() {
        saved
    } else if run_ending(c, s.ram) {
        saved_after(scan, i, c, s, saved)
    } else if case_closes(scan, flat, i) {
        saved
    } else {
        case_run_saved(p, vm_step(p, s).unwrap(), scan, flat, i + 1, saved)
    }
}

/// The case the switch goes on with after case `j` left `g`: the next case where no branch
/// was taken, the case that many blocks out for a branch out of blocks, and the jump target
/// for a branch back to the dispatch loop.
pub open spec fn case_after(j: int, g: VmFrame) -> int {
    match g.branch {
        None => j + 1,
        Some(VmBranch::Depth(k)) => j + 1 + k,
        Some(VmBranch::Loop) => g.jump_target as int,
        Some(_) => -1,
    }
}

/// The code of command `i` in its case does what the VM's step does: where the command
/// branches (a jump taken, a call through a frame, a return), its code branches to the
/// case the command goes to and leaves, its operand stack set aside, a frame that holds the
/// RAM after the step with nothing kept and the saved frames after the command; else no
/// branch is taken, the frame holds the RAM after the step with the values the code keeps,
/// and the VM goes on to the next command.
#[verifier::spinoff_prover]
#[verifier::rlimit(60)]
proof fn lemma_case_command(
    p: ProgramSpec,
    s: RunSpec,
    scan: CaseScan,
    flat: Seq<(Word, Command)>,
    i: int,
    b: CaseBuild,
    f: VmFrame,
    saved: Map<int, i32>,
)
    requires
        case_steps_ok(p, s, scan, flat, i, b, saved),
        frame_holds_kept(f, s.ram, b.kept, saved),
        f.branch is None,
    ensures
        ({
            let c = flat[i].1;
            let code = case_command_code(scan, b, i, flat[i].0, c);
            let s1 = vm_step(p, s).unwrap();
            &&& frame_run(code.0, f) matches Some(g1) && (if run_ending(c, s.ram) {
                &&& g1.branch is Some
                &&& frame_holds_kept(case_exit(g1), s1.ram, 0, saved_after(scan, i, c, s, saved))
                &&& case_after(b.cases.len() as int, g1) == ending_case(scan, b, c, s, saved)
            } else {
                &&& frame_holds_kept(g1, s1.ram, code.1, saved)
                &&& g1.branch is None
                &&& s1.current_command_index == i + 1
            })
        }),
{
    let c = flat[i].1;
    let j = b.cases.len() as int;
    let jump = case_jump(scan, b, c);
    let code = case_command_code(scan, b, i, flat[i].0, c);
    if is_stack_command(c) {
        lemma_command_code_steps(p, s, b.kept, jump, function_at(b, c), scan.labels, scan.functions, scan.calls, f, saved);
        lemma_vm_step_stack(p, s);
    } else if c is Goto || c is IfGoto {
        lemma_static_jump_steps(p, s, b.kept, jump, function_at(b, c), scan.labels, scan.functions, scan.calls, f, saved);
        let g1 = frame_run(code.0, f).unwrap();
        if jump_taken(c, s.ram) {
            assert(g1.stack =~= Seq::<i32>::empty());
            assert(case_exit(g1) == g1);
            let t = scan.labels[jump_key(b, c)] as int;
            if t > j {
                assert(jump == VmBranch::Depth((t - j - 1) as u32));
            } else {
                assert(jump == VmBranch::Loop);
            }
        }
    } else {
        match c {
            Command::Call(name, n) => {
                if name == "Math.multiply"@ || name == "Math.divide"@ {
                    lemma_static_arithmetic_call_steps(
                        p, s, b.kept, jump, function_at(b, c), scan.labels, scan.functions, scan.calls, f, saved, name,
                    );
                } else if name == "Screen.clearScreen"@ {
                    lemma_static_clear_screen_steps(
                        p, s, b.kept, jump, function_at(b, c), scan.labels, scan.functions, scan.calls, f, saved,
                    );
                } else if name == "Memory.init"@ {
                    lemma_static_memory_init_steps(
                        p, s, b.kept, jump, function_at(b, c), scan.labels, scan.functions, scan.calls, f, saved,
                    );
                } else if name == "Memory.deAlloc"@ || name == "Array.dispose"@ {
                    lemma_static_dealloc_steps(
                        p, s, b.kept, jump, function_at(b, c), scan.labels, scan.functions, scan.calls, f, saved, name,
                    );
                } else {
                    lemma_static_call_steps(
                        p, s, b.kept, jump, function_at(b, c), scan.labels, scan.functions, scan.calls, f, saved, name, n,
                    );
                    let g1 = frame_run(code.0, f).unwrap();
                    assert(g1.stack =~= Seq::<i32>::empty());
                    assert(case_exit(g1) == g1);
                    assert(((s.current_command_index + 1) as usize) == ((i + 1) as usize));
                    let t = scan.functions[name] as int;
                    if t > j {
                        assert(jump == VmBranch::Depth((t - j - 1) as u32));
                    } else {
                        assert(jump == VmBranch::Loop);
                    }
                }
            },
            Command::Return => {
                assert(jump == VmBranch::Loop);
                lemma_static_return_steps(p, s, b.kept, function_at(b, c), scan.labels, scan.functions, scan.calls, f, saved);
            },
            _ => {},
        }
    }
}

/// The run of a case from command `i` does what the VM does: from a frame that holds the
/// VM's RAM with the values kept before `i`, the code of the case from `i` on ends in a
/// frame that (its operand stack set aside where it branched) holds the RAM after the VM
/// has run the case's commands up to the end of the case or a command that branches, with
/// nothing kept and the saved frames after them, and the switch goes on with the case that
/// starts at the VM's next command.
#[verifier::spinoff_prover]
#[verifier::rlimit(60)]
proof fn lemma_case_run(
    p: ProgramSpec,
    s: RunSpec,
    scan: CaseScan,
    flat: Seq<(Word, Command)>,
    i: int,
    b: CaseBuild,
    f: VmFrame,
    saved: Map<int, i32>,
)
    requires
        case_steps_ok(p, s, scan, flat, i, b, saved),
        b == build_cases(scan, flat, i),
        scan.starts.contains(flat.len() as int),
        frame_holds_kept(f, s.ram, b.kept, saved),
        f.branch is None,
    ensures
        vm_steps(p, s, case_run_len(p, s, scan, flat, i)) is Some,
        frame_run(case_rest(scan, flat, i, b), f) matches Some(g) && frame_holds_kept(
            case_exit(g),
            vm_steps(p, s, case_run_len(p, s, scan, flat, i)).unwrap().ram,
            0,
            case_run_saved(p, s, scan, flat, i, saved),
        ) && case_after(b.cases.len() as int, g) == case_run_next(p, s, scan, flat, i, b, saved),
        ({
            let t = vm_steps(p, s, case_run_len(p, s, scan, flat, i)).unwrap();
            t.current_command_index == flat.len() || arm_starts_at(
                scan,
                flat,
                case_run_next(p, s, scan, flat, i, b, saved),
                t.current_command_index as int,
            )
        }),
    decreases flat.len() - i,
{
    let c = flat[i].1;
    let ss = flat[i].0;
    let j = b.cases.len() as int;
    let code = case_command_code(scan, b, i, ss, c);
    let b1 = build_step(scan, b, i, ss, c);
    assert(build_cases(scan, flat, i + 1) == b1);
    let s1 = vm_step(p, s).unwrap();
    assert(vm_steps(p, s1, 0) == Some(s1));
    assert(vm_steps(p, s, 1) == Some(s1));
    lemma_case_command(p, s, scan, flat, i, b, f, saved);
    let g1 = frame_run(code.0, f).unwrap();
    let rest: Seq<VmInstr> = if case_closes(scan, flat, i) {
        drop_code(code.1)
    } else {
        case_rest(scan, flat, i + 1, b1)
    };
    assert(case_rest(scan, flat, i, b) == code.0 + rest);
    lemma_frame_run_concat(code.0, rest, f);
    if run_ending(c, s.ram) {
        assert(frame_run(rest, g1) == Some(g1));
        assert(case_run_len(p, s, scan, flat, i) == 1);
    } else if case_closes(scan, flat, i) {
        assert(case_run_len(p, s, scan, flat, i) == 1);
        lemma_drop_code_stores(g1, s1.ram, code.1, saved);
        assert(scan.starts.contains(i + 1));
        assert(b1.cases.len() == j + 1);
    } else {
        assert(b1.kept == code.1);
        assert(b1.cases.len() == j);
        lemma_case_run(p, s1, scan, flat, i + 1, b1, g1, saved);
        let m = case_run_len(p, s1, scan, flat, i + 1);
        assert(case_run_len(p, s, scan, flat, i) == 1 + m);
        assert(vm_steps(p, s, (1 + m) as nat) == vm_steps(p, s1, m));
    }
}

// ---------------------------------------------------------------- the switch over the cases

/// The switch of static dispatch, `n` cases of it: each case runs from where the last one
/// left off (a branch leaves the operand stack); where no branch is taken the next case
/// follows, a branch out of `k` more blocks goes on with the case `k` further on, and a
/// branch back to the dispatch loop goes on with the case of the jump target. `None` where
/// a case names no case or leaves values on the operand stack without a branch. The case
/// reached and the frame.
pub open spec fn switch_runs(cases: Seq<Seq<VmInstr>>, j: int, f: VmFrame, n: nat) -> Option<(int, VmFrame)>
    decreases n,
{
    if n == 0 {
        Some((j, f))
    } else if !(0 <= j < cases.len()) {
        None
    } else {
        match frame_run(cases[j], VmFrame { branch: None, ..f }) {
            None => None,
            Some(g) => if case_exit(g).stack.len() == 0 {
                switch_runs(cases, case_after(j, g), case_exit(g), (n - 1) as nat)
            } else {
                None
            },
        }
    }
}

/// Each of `n` cases run one after another from case `j` starts at the VM's command, and
/// its commands meet the conditions of their code (`case_steps_ok`) as the VM runs them,
/// with the frames that the calls before them saved.
pub open spec fn switch_run_ok(
    p: ProgramSpec,
    s: RunSpec,
    scan: CaseScan,
    flat: Seq<(Word, Command)>,
    j: int,
    n: nat,
    saved: Map<int, i32>,
) -> bool
    decreases n,
{
    if n == 0 {
        true
    } else {
        let i = s.current_command_index as int;
        let b = build_cases(scan, flat, i);
        &&& arm_starts_at(scan, flat, j, i)
        &&& case_steps_ok(p, s, scan, flat, i, b, saved)
        &&& switch_run_ok(
            p,
            vm_steps(p, s, case_run_len(p, s, scan, flat, i)).unwrap(),
            scan,
            flat,
            case_run_next(p, s, scan, flat, i, b, saved),
            (n - 1) as nat,
            case_run_saved(p, s, scan, flat, i, saved),
        )
    }
}

/// How many commands the VM runs in `n` cases run one after another from `s`.
pub open spec fn switch_run_len(p: ProgramSpec, s: RunSpec, scan: CaseScan, flat: Seq<(Word, Command)>, n: nat) -> nat
    decreases n,
{
    if n == 0 {
        0
    } else {
        let i = s.current_command_index as int;
        let len = case_run_len(p, s, scan, flat, i);
        len + switch_run_len(p, vm_steps(p, s, len).unwrap(), scan, flat, (n - 1) as nat)
    }
}

/// The words of saved frames after `n` cases run one after another from `s`.
pub open spec fn switch_run_saved(
    p: ProgramSpec,
    s: RunSpec,
    scan: CaseScan,
    flat: Seq<(Word, Command)>,
    n: nat,
    saved: Map<int, i32>,
) -> Map<int, i32>
    decreases n,
{
    if n == 0 {
        saved
    } else {
        let i = s.current_command_index as int;
        let len = case_run_len(p, s, scan, flat, i);
        switch_run_saved(p, vm_steps(p, s, len).unwrap(), scan, flat, (n - 1) as nat, case_run_saved(p, s, scan, flat, i, saved))
    }
}

/// Static dispatch runs a program as the VM does, calls and returns included: where `n`
/// cases run one after another from case `j`, each starting at the VM's current command
/// and with its commands meeting the conditions of their code, the switch over the
/// program's static cases, from a frame that holds the VM's RAM with nothing kept (and the
/// frames saved by earlier calls as their code saved them), ends in a frame that holds the
/// RAM after the VM has run the commands of those cases (up to each command that branches),
/// with the frames the calls among them saved, and at the case that starts at the VM's
/// next command (unless the VM has run past the last command).
pub proof fn lemma_static_dispatch_runs_as_vm(
    files: Seq<FileSpec>,
    commands: Seq<Command>,
    p: ProgramSpec,
    s: RunSpec,
    j: int,
    f: VmFrame,
    n: nat,
    saved: Map<int, i32>,
)
    requires
        program_scan(files, commands).starts.contains(flat_commands(files, commands).len() as int),
        switch_run_ok(p, s, program_scan(files, commands), flat_commands(files, commands), j, n, saved),
        frame_holds_kept(f, s.ram, 0, saved),
    ensures
        ({
            let scan = program_scan(files, commands);
            let flat = flat_commands(files, commands);
            let m = switch_run_len(p, s, scan, flat, n);
            &&& vm_steps(p, s, m) is Some
            &&& switch_runs(static_program_cases(files, commands), j, f, n) matches Some((j2, g)) && frame_holds_kept(
                g,
                vm_steps(p, s, m).unwrap().ram,
                0,
                switch_run_saved(p, s, scan, flat, n, saved),
            ) && (n > 0 ==> (vm_steps(p, s, m).unwrap().current_command_index == flat.len() || arm_starts_at(
                scan,
                flat,
                j2,
                vm_steps(p, s, m).unwrap().current_command_index as int,
            )))
        }),
    decreases n,
{
    if n > 0 {
        let scan = program_scan(files, commands);
        let flat = flat_commands(files, commands);
        let cases = static_program_cases(files, commands);
        let i = s.current_command_index as int;
        let b = build_cases(scan, flat, i);
        lemma_case_start_empty(scan, flat, i);
        lemma_case_closes(scan, flat, i);
        lemma_build_prefix(scan, flat, i + case_len(scan, flat, i), flat.len() as int);
        assert(cases[j] == b.current + case_rest(scan, flat, i, b));
        assert(b.current + case_rest(scan, flat, i, b) =~= case_rest(scan, flat, i, b));
        let f0 = VmFrame { branch: None, ..f };
        lemma_case_run(p, s, scan, flat, i, b, f0, saved);
        let g = frame_run(cases[j], f0).unwrap();
        let len = case_run_len(p, s, scan, flat, i);
        let s1 = vm_steps(p, s, len).unwrap();
        let j1 = case_run_next(p, s, scan, flat, i, b, saved);
        let saved1 = case_run_saved(p, s, scan, flat, i, saved);
        lemma_static_dispatch_runs_as_vm(files, commands, p, s1, j1, case_exit(g), (n - 1) as nat, saved1);
        let r = switch_run_len(p, s1, scan, flat, (n - 1) as nat);
        lemma_vm_steps_split(p, s, len, r);
        assert(switch_run_len(p, s, scan, flat, n) == len + r);
    }
}

// ---------------------------------------------------------------- the cases the first pass records

/// The first pass over a prefix of the commands is defined where it is over them all.
proof fn lemma_scan_prefix(flat: Seq<(Word, Command)>, m: int, n: int)
    requires
        0 <= m <= n,
        scan_cases(flat, n) is Some,
    ensures
        scan_cases(flat, m) is Some,
    decreases n - m,
{
    if m < n {
        lemma_scan_prefix(flat, m + 1, n);
    }
}

/// Where the first pass over `m` commands makes cases start: at a function or a label, and
/// after a call; and it has counted at most one case for each command.
proof fn lemma_scan_starts(flat: Seq<(Word, Command)>, m: int)
    requires
        0 <= m <= flat.len(),
        scan_cases(flat, m) is Some,
    ensures
        forall|x: int|
            #[trigger] scan_cases(flat, m).unwrap().starts.contains(x) <==> ((0 <= x < m && (flat[x].1 is Function
                || flat[x].1 is Label)) || (1 <= x <= m && flat[x - 1].1 is Call)),
        0 <= scan_cases(flat, m).unwrap().case_index <= m,
    decreases m,
{
    if m > 0 {
        lemma_scan_prefix(flat, m - 1, m);
        lemma_scan_starts(flat, m - 1);
    }
}

/// The first pass records, for the command after a call, the number of cases it had
/// counted when it met the call.
proof fn lemma_scan_call_case(flat: Seq<(Word, Command)>, m: int, i: int)
    requires
        0 <= i < m <= flat.len(),
        flat.len() <= 0x3fff_ffff,
        flat[i].1 is Call,
        scan_cases(flat, m) is Some,
    ensures
        scan_cases(flat, i) is Some,
        scan_cases(flat, m).unwrap().calls.dom().contains((i + 1) as usize),
        scan_cases(flat, m).unwrap().calls[(i + 1) as usize] == scan_cases(flat, i).unwrap().case_index as i32,
    decreases m,
{
    lemma_scan_prefix(flat, m - 1, m);
    if m - 1 > i {
        lemma_scan_call_case(flat, m - 1, i);
        assert((m as usize) != ((i + 1) as usize));
    }
}

/// A case starts at command `n` that the first pass has not yet counted when it comes to
/// `n`: a function, or a label that does not follow a call.
pub open spec fn fresh_start(flat: Seq<(Word, Command)>, n: int) -> bool {
    &&& 0 <= n < flat.len()
    &&& flat[n].1 is Function || flat[n].1 is Label
    &&& !(n >= 1 && flat[n - 1].1 is Call)
}

/// The two passes number the cases alike: before command `n` the second pass has closed as
/// many cases as the first pass has counted, less the one that holds command `n` unless
/// that case starts fresh at `n`.
proof fn lemma_case_numbers(files: Seq<FileSpec>, commands: Seq<Command>, n: int)
    requires
        flat_commands(files, commands).len() == commands.len(),
        scan_cases(flat_commands(files, commands), commands.len() as int) is Some,
        0 <= n < commands.len(),
        flat_commands(files, commands)[0].1 is Function,
        forall|k: int|
            0 < k < commands.len() && #[trigger] flat_commands(files, commands)[k].1 is Function
                ==> !(flat_commands(files, commands)[k - 1].1 is Call),
    ensures
        scan_cases(flat_commands(files, commands), n) is Some,
        build_cases(program_scan(files, commands), flat_commands(files, commands), n).cases.len() + (if fresh_start(
            flat_commands(files, commands),
            n,
        ) {
            0int
        } else {
            1int
        }) == scan_cases(flat_commands(files, commands), n).unwrap().case_index,
    decreases n,
{
    let flat = flat_commands(files, commands);
    let scan = program_scan(files, commands);
    lemma_scan_prefix(flat, n, flat.len() as int);
    if n > 0 {
        lemma_case_numbers(files, commands, n - 1);
        lemma_scan_starts(flat, flat.len() as int);
        lemma_scan_starts(flat, n - 1);
        let sc = scan_cases(flat, flat.len() as int).unwrap();
        assert(scan.starts.contains(n) == sc.starts.contains(n));
        assert(scan_cases(flat, n - 1).unwrap().starts.contains(n - 1) == (n - 1 >= 1 && flat[n - 2].1 is Call));
    }
}

/// The case a call returns to is the case that starts after it: in a program whose files
/// hold each command once, that begins with a function and has no function right after a
/// call, the first pass records for the command after a call the case of the second pass
/// that starts there.
pub proof fn lemma_call_return_case(files: Seq<FileSpec>, commands: Seq<Command>, i: int)
    requires
        flat_commands(files, commands).len() == commands.len(),
        scan_cases(flat_commands(files, commands), commands.len() as int) is Some,
        commands.len() <= 0x3fff_ffff,
        flat_commands(files, commands)[0].1 is Function,
        forall|k: int|
            0 < k < commands.len() && #[trigger] flat_commands(files, commands)[k].1 is Function
                ==> !(flat_commands(files, commands)[k - 1].1 is Call),
        0 <= i,
        i + 1 < commands.len(),
        flat_commands(files, commands)[i].1 is Call,
    ensures
        program_scan(files, commands).calls.dom().contains((i + 1) as usize),
        arm_starts_at(
            program_scan(files, commands),
            flat_commands(files, commands),
            program_scan(files, commands).calls[(i + 1) as usize] as int,
            i + 1,
        ),
{
    let flat = flat_commands(files, commands);
    let scan = program_scan(files, commands);
    lemma_scan_call_case(flat, flat.len() as int, i);
    lemma_scan_starts(flat, i);
    lemma_scan_starts(flat, flat.len() as int);
    lemma_case_numbers(files, commands, i + 1);
    assert(scan.starts.contains(i + 1));
}

/// The first pass records, for a function declared once, the number of cases it had
/// counted when it met the declaration.
proof fn lemma_scan_function_case(flat: Seq<(Word, Command)>, m: int, k: int, name: Seq<char>)
    requires
        0 <= k < m <= flat.len(),
        flat[k].1 matches Command::Function(nm, _) && nm == name,
        forall|k2: int|
            0 <= k2 < flat.len() && k2 != k ==> !(#[trigger] flat[k2].1 matches Command::Function(nm2, _) && nm2 == name),
        scan_cases(flat, m) is Some,
    ensures
        scan_cases(flat, k) is Some,
        scan_cases(flat, m).unwrap().functions.dom().contains(name),
        scan_cases(flat, m).unwrap().functions[name] == scan_cases(flat, k).unwrap().case_index as i32,
    decreases m,
{
    lemma_scan_prefix(flat, m - 1, m);
    if m - 1 > k {
        lemma_scan_function_case(flat, m - 1, k, name);
    }
}

/// The case a call goes to is the case that starts at its function: in a program whose
/// files hold each command once, that begins with a function and has no function right
/// after a call, the first pass records for a function declared once the case of the
/// second pass that starts at its declaration.
pub proof fn lemma_function_case(files: Seq<FileSpec>, commands: Seq<Command>, k: int, name: Seq<char>)
    requires
        flat_commands(files, commands).len() == commands.len(),
        scan_cases(flat_commands(files, commands), commands.len() as int) is Some,
        commands.len() <= 0x3fff_ffff,
        flat_commands(files, commands)[0].1 is Function,
        forall|k1: int|
            0 < k1 < commands.len() && #[trigger] flat_commands(files, commands)[k1].1 is Function
                ==> !(flat_commands(files, commands)[k1 - 1].1 is Call),
        0 <= k < commands.len(),
        flat_commands(files, commands)[k].1 matches Command::Function(nm, _) && nm == name,
        forall|k2: int|
            0 <= k2 < commands.len() && k2 != k ==> !(#[trigger] flat_commands(files, commands)[k2].1 matches Command::Function(
                nm2,
                _,
            ) && nm2 == name),
    ensures
        program_scan(files, commands).functions.dom().contains(name),
        arm_starts_at(
            program_scan(files, commands),
            flat_commands(files, commands),
            program_scan(files, commands).functions[name] as int,
            k,
        ),
{
    let flat = flat_commands(files, commands);
    let scan = program_scan(files, commands);
    lemma_scan_function_case(flat, flat.len() as int, k, name);
    lemma_scan_starts(flat, k);
    lemma_scan_starts(flat, flat.len() as int);
    lemma_case_numbers(files, commands, k);
    assert(fresh_start(flat, k));
    if k > 0 {
        assert(scan.starts.contains(k));
    }
}

} // verus!

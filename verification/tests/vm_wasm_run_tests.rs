use std::collections::HashSet;

use nand2tetris::vm::{PopSegment, PushSegment, VMCommand, VM};
use nand2tetris::vm_to_wasm::{program_to_dynamic_cases, program_to_static_cases, VmBranch, VmInstr, VmLocal};

/// A frame of the straight-line code that compiled VM commands are made of.
#[derive(Clone, Debug, Default)]
struct Frame {
    stack: Vec<i32>,
    locals: [i32; 11],
    memory: Vec<i32>,
    branch: Option<VmBranch>,
}

fn slot(l: VmLocal) -> usize {
    match l {
        VmLocal::Ticks => 0,
        VmLocal::Sp => 1,
        VmLocal::Lcl => 2,
        VmLocal::Arg => 3,
        VmLocal::This => 4,
        VmLocal::That => 5,
        VmLocal::JumpTarget => 6,
        VmLocal::Temp => 7,
        VmLocal::Temp2 => 8,
        VmLocal::Temp3 => 9,
        VmLocal::Limit => 10,
    }
}

fn word(memory: &[i32], p: i32, offset: u64) -> usize {
    assert!(p >= 0, "negative address");
    let a = p as u64 + offset;
    assert!(a % 4 == 0, "unaligned access");
    let w = (a / 4) as usize;
    assert!(w < memory.len(), "access out of memory");
    w
}

fn run(code: &[VmInstr], f: &mut Frame) {
    for instr in code {
        if f.branch.is_some() {
            return;
        }
        match *instr {
            VmInstr::I32Const(c) => f.stack.push(c),
            VmInstr::LocalGet(l) => f.stack.push(f.locals[slot(l)]),
            VmInstr::LocalSet(l) => f.locals[slot(l)] = f.stack.pop().unwrap(),
            VmInstr::LocalTee(l) => f.locals[slot(l)] = *f.stack.last().unwrap(),
            VmInstr::I32Extend16S => {
                let v = f.stack.pop().unwrap();
                f.stack.push(v as i16 as i32)
            }
            VmInstr::I32Eqz => {
                let v = f.stack.pop().unwrap();
                f.stack.push((v == 0) as i32)
            }
            VmInstr::I32Load(offset) => {
                let p = f.stack.pop().unwrap();
                let w = word(&f.memory, p, offset);
                f.stack.push(f.memory[w])
            }
            VmInstr::I32Store(offset) => {
                let v = f.stack.pop().unwrap();
                let p = f.stack.pop().unwrap();
                let w = word(&f.memory, p, offset);
                f.memory[w] = v
            }
            VmInstr::MemoryFill => {
                let n = f.stack.pop().unwrap();
                let v = f.stack.pop().unwrap();
                let d = f.stack.pop().unwrap();
                assert!(d >= 0 && d % 4 == 0 && n >= 0 && n % 4 == 0, "fill of partial words");
                let byte = (v & 0xff) as u32;
                let w = (byte * 0x0101_0101) as i32;
                for a in (d / 4)..((d + n) / 4) {
                    f.memory[a as usize] = w;
                }
            }
            VmInstr::Br(t) => f.branch = Some(t),
            VmInstr::BrIf(t) => {
                if f.stack.pop().unwrap() != 0 {
                    f.branch = Some(t)
                }
            }
            op => {
                let y = f.stack.pop().unwrap();
                let x = f.stack.pop().unwrap();
                f.stack.push(match op {
                    VmInstr::I32Add => x.wrapping_add(y),
                    VmInstr::I32Sub => x.wrapping_sub(y),
                    VmInstr::I32And => x & y,
                    VmInstr::I32Or => x | y,
                    VmInstr::I32Xor => x ^ y,
                    VmInstr::I32Shl => x.wrapping_shl(y as u32),
                    VmInstr::I32ShrS => x >> ((y as u32) % 32),
                    VmInstr::I32Eq => (x == y) as i32,
                    VmInstr::I32Ne => (x != y) as i32,
                    VmInstr::I32GtS => (x > y) as i32,
                    VmInstr::I32LtS => (x < y) as i32,
                    VmInstr::I32Mul => x.wrapping_mul(y),
                    VmInstr::I32DivS => {
                        assert!(y != 0 && !(x == i32::MIN && y == -1), "division trap");
                        x / y
                    }
                    other => panic!("{other:?} is not straight-line stack code"),
                })
            }
        }
    }
}

/// A frame that holds the VM's RAM: the five registers as byte addresses in locals.
fn frame_of(vm: &VM) -> Frame {
    let memory: Vec<i32> = (0..32768).map(|a| vm.run_state.ram.read(a as i16) as i32).collect();
    let mut f = Frame { memory, ..Default::default() };
    for (register, local) in
        [VmLocal::Sp, VmLocal::Lcl, VmLocal::Arg, VmLocal::This, VmLocal::That].into_iter().enumerate()
    {
        f.locals[slot(local)] = vm.run_state.ram.read(register as i16) as i32 * 4;
    }
    f.locals[slot(VmLocal::JumpTarget)] = vm.run_state.current_command_index as i32;
    f
}

fn assert_frame_holds(f: &Frame, vm: &VM) {
    for (register, local) in
        [VmLocal::Sp, VmLocal::Lcl, VmLocal::Arg, VmLocal::This, VmLocal::That].into_iter().enumerate()
    {
        assert_eq!(f.locals[slot(local)], vm.run_state.ram.read(register as i16) as i32 * 4);
    }
    for a in 5..32768usize {
        assert_eq!(f.memory[a], vm.run_state.ram.read(a as i16) as i32, "word {a}");
    }
}

fn push(segment: PushSegment, offset: i16) -> VMCommand {
    VMCommand::Push { segment, offset }
}

fn pop(segment: PopSegment, offset: i16) -> VMCommand {
    VMCommand::Pop { segment, offset }
}

/// Runs each command both ways: its dynamic case on a frame that holds the VM's RAM, and
/// the VM's own step.
fn check_each_step(commands: Vec<VMCommand>) {
    check_steps_after(commands, 0);
}

/// As `check_each_step`, once the VM has run the first `skipped` commands.
fn check_steps_after(commands: Vec<VMCommand>, skipped: usize) {
    let count = commands.len();
    let mut vm = VM::from_all_file_commands(vec![("a".to_owned(), commands)]);
    vm.run_state.current_file_index = vm.program.file_name_to_index.get("a").unwrap();
    let (cases, _) = program_to_dynamic_cases(&vm.program);
    for _ in 0..skipped {
        vm.step();
    }
    for _ in skipped..count {
        let i = vm.run_state.current_command_index;
        let mut f = frame_of(&vm);
        run(&cases[i], &mut f);
        vm.step();
        assert_frame_holds(&f, &vm);
        assert_eq!(f.locals[slot(VmLocal::JumpTarget)], vm.run_state.current_command_index as i32);
        assert_eq!(f.locals[slot(VmLocal::Ticks)], 1);
        assert_eq!(f.branch, Some(VmBranch::Loop));
        assert!(f.stack.is_empty());
    }
}

#[test]
fn test_dynamic_cases_step_arithmetic() {
    check_each_step(vec![
        push(PushSegment::Constant, 1337),
        push(PushSegment::Constant, 2337),
        VMCommand::Add,
        push(PushSegment::Constant, 32767),
        VMCommand::Add,
        push(PushSegment::Constant, 5),
        VMCommand::Sub,
        VMCommand::Neg,
        VMCommand::Not,
        push(PushSegment::Constant, -3),
        VMCommand::And,
        push(PushSegment::Constant, 12),
        VMCommand::Or,
        push(PushSegment::Constant, 12),
        VMCommand::Eq,
        push(PushSegment::Constant, 7),
        push(PushSegment::Constant, -7),
        VMCommand::Gt,
        push(PushSegment::Constant, 7),
        push(PushSegment::Constant, -7),
        VMCommand::Lt,
    ]);
}

#[test]
fn test_dynamic_cases_step_label() {
    check_steps_after(
        vec![
            VMCommand::Function { name: "Main.main".to_owned(), local_var_count: 3 },
            push(PushSegment::Constant, 4),
            VMCommand::Label { name: "HERE".to_owned() },
            push(PushSegment::Constant, 5),
            VMCommand::Add,
        ],
        0,
    );
}

#[test]
fn test_dynamic_cases_step_segments() {
    check_each_step(vec![
        push(PushSegment::Constant, 3000),
        pop(PopSegment::Pointer, 0),
        push(PushSegment::Constant, 4000),
        pop(PopSegment::Pointer, 1),
        push(PushSegment::Constant, 11),
        pop(PopSegment::This, 2),
        push(PushSegment::Constant, 12),
        pop(PopSegment::That, 5),
        push(PushSegment::This, 2),
        push(PushSegment::That, 5),
        VMCommand::Add,
        pop(PopSegment::Static, 3),
        push(PushSegment::Static, 3),
        pop(PopSegment::Temp, 6),
        push(PushSegment::Constant, 99),
        pop(PopSegment::Temp, 0),
        push(PushSegment::Temp, 0),
        push(PushSegment::Pointer, 0),
        push(PushSegment::Pointer, 1),
        VMCommand::Sub,
    ]);
}

/// Runs a program of stack commands, which static dispatch compiles to one case, both ways:
/// the case on a frame that holds the VM's RAM, and the VM's own steps. The words below
/// SP agree; the VM leaves popped words above SP, which the case does not write.
fn check_static_case(commands: Vec<VMCommand>) {
    let count = commands.len();
    let mut vm = VM::from_all_file_commands(vec![("a".to_owned(), commands)]);
    vm.run_state.current_file_index = vm.program.file_name_to_index.get("a").unwrap();
    let (cases, start_case, case_starts) = program_to_static_cases(&vm.program);
    assert_eq!(cases.len(), 1);
    assert_eq!(start_case, 0);
    assert_eq!(case_starts, vec![count as i32]);
    let mut f = frame_of(&vm);
    run(&cases[0], &mut f);
    for _ in 0..count {
        vm.step();
    }
    let sp = vm.run_state.ram.read(0);
    assert_eq!(f.locals[slot(VmLocal::Sp)], sp as i32 * 4);
    for (register, local) in [VmLocal::Lcl, VmLocal::Arg, VmLocal::This, VmLocal::That].into_iter().enumerate() {
        assert_eq!(f.locals[slot(local)], vm.run_state.ram.read(register as i16 + 1) as i32 * 4);
    }
    for a in 5..sp as usize {
        assert_eq!(f.memory[a], vm.run_state.ram.read(a as i16) as i32, "word {a}");
    }
    assert_eq!(f.locals[slot(VmLocal::Ticks)], count as i32);
    assert!(f.stack.is_empty());
    assert_eq!(f.branch, None);
}

#[test]
fn test_static_case_arithmetic() {
    check_static_case(vec![
        push(PushSegment::Constant, 1337),
        push(PushSegment::Constant, 2337),
        VMCommand::Add,
        push(PushSegment::Constant, 32767),
        VMCommand::Add,
        push(PushSegment::Constant, 5),
        VMCommand::Sub,
        VMCommand::Neg,
        VMCommand::Not,
        push(PushSegment::Constant, -3),
        VMCommand::And,
        push(PushSegment::Constant, 12),
        VMCommand::Or,
        push(PushSegment::Constant, 12),
        VMCommand::Eq,
        push(PushSegment::Constant, 7),
        push(PushSegment::Constant, -7),
        VMCommand::Gt,
        push(PushSegment::Constant, 7),
        push(PushSegment::Constant, -7),
        VMCommand::Lt,
        push(PushSegment::Constant, 1),
        push(PushSegment::Constant, 2),
        push(PushSegment::Constant, 3),
    ]);
}

#[test]
fn test_static_case_segments() {
    check_static_case(vec![
        push(PushSegment::Constant, 3000),
        pop(PopSegment::Pointer, 0),
        push(PushSegment::Constant, 4000),
        pop(PopSegment::Pointer, 1),
        push(PushSegment::Constant, 11),
        pop(PopSegment::This, 2),
        push(PushSegment::Constant, 12),
        pop(PopSegment::That, 5),
        push(PushSegment::This, 2),
        push(PushSegment::That, 5),
        VMCommand::Add,
        pop(PopSegment::Static, 3),
        push(PushSegment::Static, 3),
        pop(PopSegment::Temp, 6),
        push(PushSegment::Constant, 99),
        pop(PopSegment::Temp, 0),
        push(PushSegment::Temp, 0),
        push(PushSegment::Pointer, 0),
        push(PushSegment::Pointer, 1),
        VMCommand::Sub,
        push(PushSegment::Constant, 8),
    ]);
}

#[test]
fn test_dynamic_cases_step_jumps() {
    check_steps_after(
        vec![
            VMCommand::Function { name: "Main.main".to_owned(), local_var_count: 2 },
            push(PushSegment::Constant, 1),
            VMCommand::IfGoto { label_name: "SKIP".to_owned() },
            push(PushSegment::Constant, 5),
            VMCommand::Label { name: "SKIP".to_owned() },
            push(PushSegment::Constant, 0),
            VMCommand::IfGoto { label_name: "NOPE".to_owned() },
            VMCommand::Label { name: "NOPE".to_owned() },
            VMCommand::Goto { label_name: "SKIP".to_owned() },
        ],
        0,
    );
}

/// Whether the frame holds the VM's RAM with the words in `scaled` four times the RAM's.
fn assert_frame_holds_scaled(f: &Frame, vm: &VM, scaled: &HashSet<usize>) {
    for (register, local) in
        [VmLocal::Sp, VmLocal::Lcl, VmLocal::Arg, VmLocal::This, VmLocal::That].into_iter().enumerate()
    {
        assert_eq!(f.locals[slot(local)], vm.run_state.ram.read(register as i16) as i32 * 4);
    }
    for a in 5..32768usize {
        let v = vm.run_state.ram.read(a as i16) as i32;
        let expected = if scaled.contains(&a) { v * 4 } else { v };
        assert_eq!(f.memory[a], expected, "word {a}");
    }
}

fn call(name: &str, argument_count: i16) -> VMCommand {
    VMCommand::Call { function_name: name.to_owned(), argument_count }
}

/// Runs the dispatch loop over the dynamic cases next to the VM, one round per step,
/// keeping the scaled words as calls and returns change them.
fn check_dispatch_rounds(commands: Vec<VMCommand>, steps: usize) {
    let mut vm = VM::from_all_file_commands(vec![("Sys".to_owned(), commands)]);
    let (cases, _) = program_to_dynamic_cases(&vm.program);
    let mut f = frame_of(&vm);
    let mut scaled: HashSet<usize> = HashSet::new();
    for _ in 0..steps {
        let i = vm.run_state.current_command_index;
        assert_eq!(f.locals[slot(VmLocal::JumpTarget)], i as i32);
        let sp = vm.run_state.ram.read(0) as usize;
        let arg = vm.run_state.ram.read(2) as usize;
        let register = |r: i16| vm.run_state.ram.read(r) as usize;
        let static_start = vm.program.files[vm.run_state.current_file_index].static_segment.start() as usize;
        match &vm.program.all_commands[i] {
            VMCommand::Call { .. } => {
                scaled.remove(&sp);
                for k in 1..=4 {
                    scaled.insert(sp + k);
                }
            }
            VMCommand::Return => {
                scaled.remove(&arg);
            }
            VMCommand::Push { .. } => {
                scaled.remove(&sp);
            }
            VMCommand::Pop { segment, offset } => {
                let offset = *offset as usize;
                let target = match segment {
                    PopSegment::Static => static_start + offset,
                    PopSegment::Local => register(1) + offset,
                    PopSegment::Argument => register(2) + offset,
                    PopSegment::This => register(3) + offset,
                    PopSegment::That => register(4) + offset,
                    PopSegment::Temp => 5 + offset,
                    PopSegment::Pointer => 3 + offset,
                };
                scaled.remove(&target);
            }
            VMCommand::Function { local_var_count, .. } => {
                for k in 0..(*local_var_count as usize) {
                    scaled.remove(&(sp + k));
                }
            }
            _ => {}
        }
        f.branch = None;
        run(&cases[i], &mut f);
        vm.step();
        assert_eq!(f.branch, Some(VmBranch::Loop));
        assert!(f.stack.is_empty());
        assert_frame_holds_scaled(&f, &vm, &scaled);
        assert_eq!(f.locals[slot(VmLocal::JumpTarget)], vm.run_state.current_command_index as i32);
    }
}

#[test]
fn test_dispatch_rounds_call_and_return() {
    check_dispatch_rounds(
        vec![
            VMCommand::Function { name: "Sys.init".to_owned(), local_var_count: 0 },
            push(PushSegment::Constant, 6),
            push(PushSegment::Constant, 7),
            call("Sys.add", 2),
            pop(PopSegment::Static, 0),
            push(PushSegment::Constant, 9),
            call("Sys.twice", 1),
            pop(PopSegment::Static, 1),
            VMCommand::Label { name: "END".to_owned() },
            VMCommand::Goto { label_name: "END".to_owned() },
            VMCommand::Function { name: "Sys.add".to_owned(), local_var_count: 1 },
            push(PushSegment::Argument, 0),
            push(PushSegment::Argument, 1),
            VMCommand::Add,
            pop(PopSegment::Local, 0),
            push(PushSegment::Local, 0),
            VMCommand::Return,
            VMCommand::Function { name: "Sys.twice".to_owned(), local_var_count: 0 },
            push(PushSegment::Argument, 0),
            push(PushSegment::Argument, 0),
            call("Sys.add", 2),
            VMCommand::Return,
        ],
        32,
    );
}

#[test]
fn test_dynamic_case_multiply_in_place() {
    let commands = vec![
        VMCommand::Function { name: "Sys.init".to_owned(), local_var_count: 0 },
        push(PushSegment::Constant, -12),
        push(PushSegment::Constant, 11),
        call("Math.multiply", 2),
        push(PushSegment::Constant, 7),
        call("Math.divide", 2),
        VMCommand::Label { name: "END".to_owned() },
        VMCommand::Goto { label_name: "END".to_owned() },
    ];
    let mut vm = VM::from_all_file_commands(vec![("Sys".to_owned(), commands)]);
    let (cases, _) = program_to_dynamic_cases(&vm.program);
    for _ in 0..6 {
        let i = vm.run_state.current_command_index;
        let sp = vm.run_state.ram.read(0) as usize;
        let is_call = matches!(vm.program.all_commands[i], VMCommand::Call { .. });
        let mut f = frame_of(&vm);
        run(&cases[i], &mut f);
        vm.step();
        assert_eq!(f.branch, Some(VmBranch::Loop));
        assert_eq!(f.locals[slot(VmLocal::JumpTarget)], vm.run_state.current_command_index as i32);
        for (register, local) in
            [VmLocal::Sp, VmLocal::Lcl, VmLocal::Arg, VmLocal::This, VmLocal::That].into_iter().enumerate()
        {
            assert_eq!(f.locals[slot(local)], vm.run_state.ram.read(register as i16) as i32 * 4);
        }
        for a in 5..32768usize {
            if is_call && (sp..=sp + 5).contains(&a) {
                continue;
            }
            assert_eq!(f.memory[a], vm.run_state.ram.read(a as i16) as i32, "word {a}");
        }
    }
    assert_eq!(vm.run_state.ram.read(vm.run_state.ram.read(0) - 1), -132 / 7);
}

/// Runs the switch over the static cases next to the VM: each case on the frame the last
/// one left (a branch leaves the operand stack), the VM for as many commands as the case
/// counted in its ticks, and the switch on with the case its branch names. Below SP the
/// frame holds the VM's RAM, but for the frames that calls saved: there the compiled code
/// holds the return case and the caller's registers as byte addresses.
fn check_switch_runs(commands: Vec<VMCommand>, rounds: usize) {
    let mut vm = VM::from_all_file_commands(vec![("Sys".to_owned(), commands)]);
    let (cases, start_case, case_starts) = program_to_static_cases(&vm.program);
    let mut f = frame_of(&vm);
    let mut j = start_case as usize;
    let mut saved: std::collections::HashMap<usize, i32> = std::collections::HashMap::new();
    for _ in 0..rounds {
        assert_eq!(case_starts[j], vm.run_state.current_command_index as i32);
        f.branch = None;
        let before = f.locals[slot(VmLocal::Ticks)];
        run(&cases[j], &mut f);
        let ran = f.locals[slot(VmLocal::Ticks)] - before;
        assert!(ran >= 1);
        for _ in 1..ran {
            vm.step();
        }
        let i = vm.run_state.current_command_index;
        let register = |r: i16| vm.run_state.ram.read(r) as i32;
        match &vm.program.all_commands[i] {
            VMCommand::Call { function_name, .. }
                if !function_name.starts_with("Math.")
                    && function_name != "Screen.clearScreen"
                    && function_name != "Memory.init" =>
            {
                let sp = register(0) as usize;
                let ret = case_starts.iter().position(|&c| c == i as i32 + 1).unwrap();
                saved.insert(sp, ret as i32);
                for k in 1..=4 {
                    saved.insert(sp + k, register(k as i16) * 4);
                }
            }
            VMCommand::Return => {
                let arg = register(2) as usize;
                saved.retain(|&a, _| a < arg);
            }
            _ => {}
        }
        vm.step();
        j = match f.branch {
            None => j + 1,
            Some(VmBranch::Depth(k)) => j + 1 + k as usize,
            Some(VmBranch::Loop) => f.locals[slot(VmLocal::JumpTarget)] as usize,
            Some(other) => panic!("{other:?} leaves the switch"),
        };
        if f.branch.is_some() {
            f.stack.clear();
        }
        assert!(f.stack.is_empty());
        let sp = vm.run_state.ram.read(0) as usize;
        for (register, local) in
            [VmLocal::Sp, VmLocal::Lcl, VmLocal::Arg, VmLocal::This, VmLocal::That].into_iter().enumerate()
        {
            assert_eq!(f.locals[slot(local)], vm.run_state.ram.read(register as i16) as i32 * 4);
        }
        for a in 5..sp {
            let expected = match saved.get(&a) {
                Some(&w) => w,
                None => vm.run_state.ram.read(a as i16) as i32,
            };
            assert_eq!(f.memory[a], expected, "word {a}");
        }
    }
    assert_eq!(case_starts[j], vm.run_state.current_command_index as i32);
}

#[test]
fn test_static_switch_call_and_return() {
    check_switch_runs(
        vec![
            VMCommand::Function { name: "Sys.init".to_owned(), local_var_count: 0 },
            push(PushSegment::Constant, 6),
            push(PushSegment::Constant, 7),
            call("Sys.add", 2),
            pop(PopSegment::Static, 0),
            push(PushSegment::Constant, 9),
            call("Sys.twice", 1),
            pop(PopSegment::Static, 1),
            push(PushSegment::Constant, 3),
            push(PushSegment::Constant, 4),
            call("Math.multiply", 2),
            pop(PopSegment::Static, 2),
            call("Screen.clearScreen", 0),
            pop(PopSegment::Temp, 0),
            call("Memory.init", 0),
            pop(PopSegment::Temp, 1),
            VMCommand::Label { name: "END".to_owned() },
            VMCommand::Goto { label_name: "END".to_owned() },
            VMCommand::Function { name: "Sys.add".to_owned(), local_var_count: 1 },
            push(PushSegment::Argument, 0),
            push(PushSegment::Argument, 1),
            VMCommand::Add,
            pop(PopSegment::Local, 0),
            push(PushSegment::Local, 0),
            VMCommand::Return,
            VMCommand::Function { name: "Sys.twice".to_owned(), local_var_count: 0 },
            push(PushSegment::Argument, 0),
            push(PushSegment::Argument, 0),
            call("Sys.add", 2),
            VMCommand::Return,
        ],
        20,
    );
}

use nand2tetris::vm::{PopSegment, PushSegment, VMCommand, VM};
use nand2tetris::vm_to_wasm::{
    command_to_wasm2, expression_from_cases, program_to_dynamic_cases, program_to_static_cases,
    CommandIndices, NameIndices, VmBranch, VmGlobal, VmInstr, VmLocal,
};

fn tick() -> Vec<VmInstr> {
    vec![
        VmInstr::I32Const(1),
        VmInstr::LocalGet(VmLocal::Ticks),
        VmInstr::I32Add,
        VmInstr::LocalSet(VmLocal::Ticks),
    ]
}

fn compile(command: &VMCommand, stack_size: &mut usize) -> Vec<VmInstr> {
    let labels = NameIndices::new();
    let functions = NameIndices::new();
    let calls = CommandIndices::new();
    command_to_wasm2(command, 0, VmBranch::Loop, 16, None, &labels, &functions, &calls, stack_size)
}

/// The operand stack depth after `code`, counting pops and pushes.
fn depth_after(code: &[VmInstr], mut depth: usize) -> usize {
    for instr in code {
        let (pops, pushes) = match instr {
            VmInstr::I32Const(_) | VmInstr::LocalGet(_) | VmInstr::GlobalGet(_) => (0, 1),
            VmInstr::LocalSet(_) | VmInstr::GlobalSet(_) | VmInstr::If | VmInstr::BrIf(_) => (1, 0),
            VmInstr::LocalTee(_) | VmInstr::I32Load(_) | VmInstr::I32Eqz | VmInstr::I32Extend16S => {
                (1, 1)
            }
            VmInstr::I32Store(_) => (2, 0),
            VmInstr::MemoryFill => (3, 0),
            VmInstr::Loop | VmInstr::Else | VmInstr::End | VmInstr::Br(_) => (0, 0),
            _ => (2, 1),
        };
        assert!(depth >= pops, "pops a missing operand");
        depth = depth - pops + pushes;
    }
    depth
}

#[test]
fn test_add_loads_both_operands() {
    let mut stack_size = 0;
    let code = compile(&VMCommand::Add, &mut stack_size);
    let mut expected = tick();
    expected.extend([
        VmInstr::LocalGet(VmLocal::Sp),
        VmInstr::I32Const(8),
        VmInstr::I32Sub,
        VmInstr::LocalTee(VmLocal::Sp),
        VmInstr::I32Load(0),
        VmInstr::LocalGet(VmLocal::Sp),
        VmInstr::I32Load(4),
        VmInstr::I32Add,
        VmInstr::I32Extend16S,
    ]);
    assert_eq!(code, expected);
    assert_eq!(stack_size, 1);
}

#[test]
fn test_kept_values_stay_on_the_operand_stack() {
    let mut stack_size = 0;
    let push = |offset| VMCommand::Push { segment: PushSegment::Constant, offset };
    let mut all = vec![];
    for command in [push(7), push(8), VMCommand::Add, VMCommand::Not] {
        let before = stack_size;
        let code = compile(&command, &mut stack_size);
        assert_eq!(depth_after(&code, before), stack_size);
        all.extend(code);
    }
    assert_eq!(stack_size, 1);
    let mut expected = tick();
    expected.push(VmInstr::I32Const(7));
    expected.extend(tick());
    expected.push(VmInstr::I32Const(8));
    expected.extend(tick());
    expected.extend([VmInstr::I32Add, VmInstr::I32Extend16S]);
    expected.extend(tick());
    expected.extend([VmInstr::I32Const(-1), VmInstr::I32Xor]);
    assert_eq!(all, expected);
}

#[test]
fn test_depth_of_every_command() {
    let commands = vec![
        VMCommand::Push { segment: PushSegment::Local, offset: 2 },
        VMCommand::Push { segment: PushSegment::Static, offset: 3 },
        VMCommand::Push { segment: PushSegment::Temp, offset: 1 },
        VMCommand::Push { segment: PushSegment::Pointer, offset: 1 },
        VMCommand::Pop { segment: PopSegment::That, offset: 0 },
        VMCommand::Pop { segment: PopSegment::Pointer, offset: 0 },
        VMCommand::Sub,
        VMCommand::Neg,
        VMCommand::Eq,
        VMCommand::Gt,
        VMCommand::Lt,
        VMCommand::And,
        VMCommand::Or,
        VMCommand::Function { name: "F".to_owned(), local_var_count: 3 },
        VMCommand::Call { function_name: "Math.multiply".to_owned(), argument_count: 2 },
        VMCommand::Call { function_name: "Memory.alloc".to_owned(), argument_count: 1 },
        VMCommand::Call { function_name: "Screen.drawPixel".to_owned(), argument_count: 2 },
        VMCommand::Return,
    ];
    for command in &commands {
        for kept in 0..4 {
            let mut stack_size = kept;
            let code = compile(command, &mut stack_size);
            assert_eq!(depth_after(&code, kept), stack_size, "{command:?} from {kept}");
        }
    }
}

#[test]
fn test_goto_sets_jump_target() {
    let mut labels = NameIndices::new();
    labels.insert("Main.f.LOOP".to_owned(), 3);
    let functions = NameIndices::new();
    let calls = CommandIndices::new();
    let mut stack_size = 1;
    let name = "Main.f".to_owned();
    let code = command_to_wasm2(
        &VMCommand::Goto { label_name: "LOOP".to_owned() },
        5,
        VmBranch::Loop,
        16,
        Some(&name),
        &labels,
        &functions,
        &calls,
        &mut stack_size,
    );
    let mut expected = tick();
    expected.extend([
        VmInstr::LocalSet(VmLocal::Temp),
        VmInstr::LocalGet(VmLocal::Sp),
        VmInstr::LocalGet(VmLocal::Temp),
        VmInstr::I32Store(0),
        VmInstr::LocalGet(VmLocal::Sp),
        VmInstr::I32Const(4),
        VmInstr::I32Add,
        VmInstr::LocalSet(VmLocal::Sp),
        VmInstr::I32Const(3),
        VmInstr::LocalSet(VmLocal::JumpTarget),
        VmInstr::Br(VmBranch::Loop),
    ]);
    assert_eq!(code, expected);
    assert_eq!(stack_size, 0);
}

#[test]
fn test_program_static_cases() {
    let commands = vec![
        VMCommand::Function { name: "Sys.init".to_owned(), local_var_count: 0 },
        VMCommand::Push { segment: PushSegment::Constant, offset: 1 },
        VMCommand::Push { segment: PushSegment::Constant, offset: 2 },
        VMCommand::Add,
        VMCommand::Label { name: "END".to_owned() },
        VMCommand::Goto { label_name: "END".to_owned() },
    ];
    let vm = VM::from_all_file_commands(vec![("Sys".to_owned(), commands)]);
    let (cases, start_case, case_starts) = program_to_static_cases(&vm.program);
    assert_eq!(start_case, 0);
    assert_eq!(case_starts, vec![0, 4, 6]);
    assert_eq!(cases.len(), 2);
    let mut first = tick();
    first.extend(tick());
    first.push(VmInstr::I32Const(1));
    first.extend(tick());
    first.push(VmInstr::I32Const(2));
    first.extend(tick());
    first.extend([VmInstr::I32Add, VmInstr::I32Extend16S]);
    first.extend([
        VmInstr::LocalSet(VmLocal::Temp),
        VmInstr::LocalGet(VmLocal::Sp),
        VmInstr::LocalGet(VmLocal::Temp),
        VmInstr::I32Store(0),
        VmInstr::LocalGet(VmLocal::Sp),
        VmInstr::I32Const(4),
        VmInstr::I32Add,
        VmInstr::LocalSet(VmLocal::Sp),
    ]);
    assert_eq!(cases[0], first);
    let mut second = tick();
    second.extend(tick());
    second.extend([
        VmInstr::I32Const(1),
        VmInstr::LocalSet(VmLocal::JumpTarget),
        VmInstr::Br(VmBranch::Loop),
    ]);
    assert_eq!(cases[1], second);
}

fn jump_to(case: i32) -> Vec<VmInstr> {
    vec![
        VmInstr::I32Const(case),
        VmInstr::LocalSet(VmLocal::JumpTarget),
        VmInstr::Br(VmBranch::Loop),
    ]
}

#[test]
fn test_program_dynamic_cases() {
    let commands = vec![
        VMCommand::Function { name: "Main.f".to_owned(), local_var_count: 0 },
        VMCommand::Function { name: "Sys.init".to_owned(), local_var_count: 0 },
        VMCommand::Push { segment: PushSegment::Constant, offset: 7 },
        VMCommand::Label { name: "END".to_owned() },
        VMCommand::Goto { label_name: "END".to_owned() },
    ];
    let vm = VM::from_all_file_commands(vec![("Sys".to_owned(), commands)]);
    let (cases, start_case) = program_to_dynamic_cases(&vm.program);
    assert_eq!(start_case, 1);
    assert_eq!(cases.len(), 5);
    assert!(cases[0].ends_with(&jump_to(1)));
    assert!(cases[1].ends_with(&jump_to(2)));

    let mut push = tick();
    push.push(VmInstr::I32Const(7));
    push.extend([
        VmInstr::LocalSet(VmLocal::Temp),
        VmInstr::LocalGet(VmLocal::Sp),
        VmInstr::LocalGet(VmLocal::Temp),
        VmInstr::I32Store(0),
        VmInstr::LocalGet(VmLocal::Sp),
        VmInstr::I32Const(4),
        VmInstr::I32Add,
        VmInstr::LocalSet(VmLocal::Sp),
    ]);
    push.extend(jump_to(3));
    assert_eq!(cases[2], push);

    let mut label = tick();
    label.extend(jump_to(4));
    assert_eq!(cases[3], label);

    // The label is found by its command index, 3, under `Sys.init.END`.
    let mut goto = tick();
    goto.extend(jump_to(3));
    goto.extend(jump_to(5));
    assert_eq!(cases[4], goto);
}

#[test]
fn test_dynamic_start_without_sys_init() {
    let commands = vec![
        VMCommand::Function { name: "Main.main".to_owned(), local_var_count: 0 },
        VMCommand::Return,
    ];
    let vm = VM::from_all_file_commands(vec![("Main".to_owned(), commands)]);
    let (cases, start_case) = program_to_dynamic_cases(&vm.program);
    assert_eq!(start_case, 0);
    assert_eq!(cases.len(), 2);
}

fn register_loads() -> Vec<VmInstr> {
    let mut code = vec![];
    let locals = [VmLocal::Sp, VmLocal::Lcl, VmLocal::Arg, VmLocal::This, VmLocal::That];
    for (address, local) in locals.into_iter().enumerate() {
        code.extend([
            VmInstr::I32Const(address as i32 * 4),
            VmInstr::I32Load(0),
            VmInstr::I32Const(2),
            VmInstr::I32Shl,
            VmInstr::LocalSet(local),
        ]);
    }
    code
}

fn register_stores() -> Vec<VmInstr> {
    let mut code = vec![];
    let locals = [VmLocal::Sp, VmLocal::Lcl, VmLocal::Arg, VmLocal::This, VmLocal::That];
    for (address, local) in locals.into_iter().enumerate() {
        code.extend([
            VmInstr::I32Const(address as i32 * 4),
            VmInstr::LocalGet(local),
            VmInstr::I32Const(2),
            VmInstr::I32ShrU,
            VmInstr::I32Store(0),
        ]);
    }
    code
}

#[test]
fn test_expression_from_cases_without_limit() {
    let cases = vec![vec![VmInstr::I32Const(5)], vec![VmInstr::Return]];
    let code = expression_from_cases(cases, false);
    let mut expected = vec![
        VmInstr::GlobalGet(VmGlobal::JumpTarget),
        VmInstr::LocalSet(VmLocal::JumpTarget),
    ];
    expected.extend(register_loads());
    expected.extend([
        VmInstr::Loop,
        VmInstr::Block,
        VmInstr::Block,
        VmInstr::Block,
        VmInstr::LocalGet(VmLocal::JumpTarget),
        VmInstr::BrTable(2),
        VmInstr::End,
        VmInstr::I32Const(5),
        VmInstr::End,
        VmInstr::Return,
        VmInstr::End,
        VmInstr::Unreachable,
        VmInstr::End,
        VmInstr::I32Const(2),
        VmInstr::GlobalSet(VmGlobal::JumpTarget),
    ]);
    expected.extend(register_stores());
    expected.push(VmInstr::LocalGet(VmLocal::Ticks));
    assert_eq!(code, expected);
}

#[test]
fn test_expression_from_cases_with_limit() {
    let code = expression_from_cases(vec![], true);
    let mut expected = vec![
        VmInstr::GlobalGet(VmGlobal::JumpTarget),
        VmInstr::LocalSet(VmLocal::JumpTarget),
    ];
    expected.extend(register_loads());
    expected.extend([
        VmInstr::Loop,
        VmInstr::LocalGet(VmLocal::Ticks),
        VmInstr::LocalGet(VmLocal::Limit),
        VmInstr::I32GeU,
        VmInstr::If,
        VmInstr::LocalGet(VmLocal::JumpTarget),
        VmInstr::GlobalSet(VmGlobal::JumpTarget),
        VmInstr::LocalGet(VmLocal::Ticks),
    ]);
    expected.extend(register_stores());
    expected.extend([
        VmInstr::Return,
        VmInstr::End,
        VmInstr::Block,
        VmInstr::LocalGet(VmLocal::JumpTarget),
        VmInstr::BrTable(0),
        VmInstr::End,
        VmInstr::Unreachable,
        VmInstr::End,
        VmInstr::I32Const(0),
        VmInstr::GlobalSet(VmGlobal::JumpTarget),
    ]);
    expected.extend(register_stores());
    expected.push(VmInstr::LocalGet(VmLocal::Ticks));
    assert_eq!(code, expected);
}

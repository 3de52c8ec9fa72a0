use nand2tetris::vm::{PopSegment, PushSegment, VMCommand, VM};
use nand2tetris::vm_to_wasm::{
    expression_from_cases, program_to_static_cases, VmBranch, VmGlobal, VmInstr, VmLocal,
};

/// The state of the compiled `run` function: operand stack, locals, globals and memory
/// (word `i` at byte address `4 * i`).
struct Machine {
    stack: Vec<i32>,
    locals: [i32; 11],
    globals: [i32; 2],
    memory: Vec<i32>,
}

fn slot(l: VmLocal) -> usize {
    match l {
        VmLocal::Ticks => 0,
        VmLocal::Sp => 1,
        VmLocal::Lcl => 2,
        VmLocal::Arg => 3,
        VmLocal::This => 4,
        VmLocal::That => 5,
        VmLocal::JumpTarget => 6,
        VmLocal::Temp => 7,
        VmLocal::Temp2 => 8,
        VmLocal::Temp3 => 9,
        VmLocal::Limit => 10,
    }
}

fn global(g: VmGlobal) -> usize {
    match g {
        VmGlobal::JumpTarget => 0,
        VmGlobal::ScreenColor => 1,
    }
}

#[derive(Clone, Copy)]
struct Label {
    is_loop: bool,
    start: usize,
    end: usize,
    dispatch: bool,
}

/// For each block, loop and if: its matching `Else` (if any) and `End`.
fn matching(code: &[VmInstr]) -> (Vec<Option<usize>>, Vec<usize>) {
    let mut els = vec![None; code.len()];
    let mut ends = vec![usize::MAX; code.len()];
    let mut open: Vec<usize> = vec![];
    for (i, instr) in code.iter().enumerate() {
        match instr {
            VmInstr::Block | VmInstr::Loop | VmInstr::If => open.push(i),
            VmInstr::Else => els[*open.last().unwrap()] = Some(i),
            VmInstr::End => {
                let o = open.pop().unwrap();
                ends[o] = i;
                if let Some(e) = els[o] {
                    ends[e] = i;
                }
            }
            _ => {}
        }
    }
    assert!(open.is_empty(), "unbalanced code");
    (els, ends)
}

fn word(memory: &[i32], p: i32, offset: u64) -> usize {
    let a = p as u32 as u64 + offset;
    assert!(a % 4 == 0, "unaligned access");
    let w = (a / 4) as usize;
    assert!(w < memory.len(), "access out of memory");
    w
}

/// Runs the function body; the value it returns, or `None` where it traps.
fn run_function(code: &[VmInstr], m: &mut Machine) -> Option<i32> {
    let (els, ends) = matching(code);
    let first_loop = code.iter().position(|i| *i == VmInstr::Loop).unwrap();
    let mut labels: Vec<Label> = vec![];
    let mut pc = 0;
    while pc < code.len() {
        let mut target: Option<usize> = None;
        match code[pc] {
            VmInstr::Block => labels.push(Label { is_loop: false, start: pc + 1, end: ends[pc], dispatch: false }),
            VmInstr::Loop => labels.push(Label { is_loop: true, start: pc + 1, end: ends[pc], dispatch: pc == first_loop }),
            VmInstr::If => {
                let c = m.stack.pop().unwrap();
                if c != 0 {
                    labels.push(Label { is_loop: false, start: pc + 1, end: ends[pc], dispatch: false });
                } else if let Some(e) = els[pc] {
                    labels.push(Label { is_loop: false, start: e + 1, end: ends[pc], dispatch: false });
                    pc = e;
                } else {
                    pc = ends[pc];
                }
            }
            VmInstr::Else => {
                labels.pop();
                pc = ends[pc];
            }
            VmInstr::End => {
                labels.pop();
            }
            VmInstr::Br(b) => target = Some(resolve(&labels, b)),
            VmInstr::BrIf(b) => {
                if m.stack.pop().unwrap() != 0 {
                    target = Some(resolve(&labels, b));
                }
            }
            VmInstr::BrTable(n) => {
                let x = m.stack.pop().unwrap() as u32;
                let depth = if x < n { x } else { n };
                target = Some(resolve(&labels, VmBranch::Depth(depth)));
            }
            VmInstr::Return => return m.stack.pop(),
            VmInstr::Unreachable => return None,
            VmInstr::I32Const(c) => m.stack.push(c),
            VmInstr::LocalGet(l) => m.stack.push(m.locals[slot(l)]),
            VmInstr::LocalSet(l) => m.locals[slot(l)] = m.stack.pop().unwrap(),
            VmInstr::LocalTee(l) => m.locals[slot(l)] = *m.stack.last().unwrap(),
            VmInstr::GlobalGet(g) => m.stack.push(m.globals[global(g)]),
            VmInstr::GlobalSet(g) => m.globals[global(g)] = m.stack.pop().unwrap(),
            VmInstr::I32Load(offset) => {
                let p = m.stack.pop().unwrap();
                let w = word(&m.memory, p, offset);
                m.stack.push(m.memory[w])
            }
            VmInstr::I32Store(offset) => {
                let v = m.stack.pop().unwrap();
                let p = m.stack.pop().unwrap();
                let w = word(&m.memory, p, offset);
                m.memory[w] = v
            }
            VmInstr::MemoryFill => {
                let n = m.stack.pop().unwrap();
                let v = m.stack.pop().unwrap();
                let d = m.stack.pop().unwrap();
                assert!(v == 0 && d % 4 == 0 && n % 4 == 0);
                for w in (d / 4)..((d + n) / 4) {
                    m.memory[w as usize] = 0;
                }
            }
            VmInstr::I32Eqz => {
                let v = m.stack.pop().unwrap();
                m.stack.push((v == 0) as i32)
            }
            VmInstr::I32Extend16S => {
                let v = m.stack.pop().unwrap();
                m.stack.push(v as i16 as i32)
            }
            op => {
                let y = m.stack.pop().unwrap();
                let x = m.stack.pop().unwrap();
                let r = match op {
                    VmInstr::I32Add => x.wrapping_add(y),
                    VmInstr::I32Sub => x.wrapping_sub(y),
                    VmInstr::I32Mul => x.wrapping_mul(y),
                    VmInstr::I32DivS => {
                        if y == 0 {
                            return None;
                        }
                        x.wrapping_div(y)
                    }
                    VmInstr::I32And => x & y,
                    VmInstr::I32Or => x | y,
                    VmInstr::I32Xor => x ^ y,
                    VmInstr::I32Shl => x.wrapping_shl(y as u32),
                    VmInstr::I32ShrS => x >> ((y as u32) % 32),
                    VmInstr::I32ShrU => ((x as u32) >> ((y as u32) % 32)) as i32,
                    VmInstr::I32Eq => (x == y) as i32,
                    VmInstr::I32Ne => (x != y) as i32,
                    VmInstr::I32GtS => (x > y) as i32,
                    VmInstr::I32LtS => (x < y) as i32,
                    VmInstr::I32GeU => ((x as u32) >= (y as u32)) as i32,
                    other => panic!("unexpected {other:?}"),
                };
                m.stack.push(r)
            }
        }
        match target {
            Some(idx) => {
                let label = labels[idx];
                if label.is_loop {
                    labels.truncate(idx + 1);
                    pc = label.start;
                } else {
                    labels.truncate(idx);
                    pc = label.end + 1;
                }
            }
            None => pc += 1,
        }
    }
    m.stack.pop()
}

fn resolve(labels: &[Label], b: VmBranch) -> usize {
    match b {
        VmBranch::Depth(k) => labels.len() - 1 - k as usize,
        VmBranch::Loop => labels.iter().position(|l| l.dispatch).unwrap(),
        VmBranch::AllocContinue => labels.iter().rposition(|l| l.is_loop && !l.dispatch).unwrap(),
    }
}

fn push(segment: PushSegment, offset: i16) -> VMCommand {
    VMCommand::Push { segment, offset }
}

fn pop(segment: PopSegment, offset: i16) -> VMCommand {
    VMCommand::Pop { segment, offset }
}

fn function(name: &str, locals: i16) -> VMCommand {
    VMCommand::Function { name: name.to_owned(), local_var_count: locals }
}

fn call(name: &str, arguments: i16) -> VMCommand {
    VMCommand::Call { function_name: name.to_owned(), argument_count: arguments }
}

/// `Sys.init` running `body`, then looping at its end.
fn sys(body: Vec<VMCommand>) -> Vec<VMCommand> {
    let mut commands = vec![function("Sys.init", 0)];
    commands.extend(body);
    commands.push(VMCommand::Label { name: "END".to_owned() });
    commands.push(VMCommand::Goto { label_name: "END".to_owned() });
    commands
}

/// Runs the compiled program until it has run at least `limit` commands, and the VM for as
/// many commands; the registers and the words below SP agree. Returns the VM.
fn run_both(files: Vec<(String, Vec<VMCommand>)>, limit: i32) -> VM {
    let mut vm = VM::from_all_file_commands(files);
    let (cases, start_case, _) = program_to_static_cases(&vm.program);
    let code = expression_from_cases(cases, true);
    let memory: Vec<i32> = (0..32768).map(|a| vm.run_state.ram.read(a as i16) as i32).collect();
    let mut m = Machine { stack: vec![], locals: [0; 11], globals: [start_case, 0], memory };
    m.locals[slot(VmLocal::Limit)] = limit;
    let ticks = run_function(&code, &mut m).expect("the compiled program trapped");
    assert!(ticks >= limit);
    for _ in 0..ticks {
        vm.step();
    }
    let sp = vm.run_state.ram.read(0);
    for a in 0..sp as usize {
        assert_eq!(m.memory[a], vm.run_state.ram.read(a as i16) as i32, "word {a}");
    }
    vm
}

fn top(vm: &VM) -> i16 {
    vm.run_state.ram.stack_top()
}

#[test]
fn test_dispatch_arithmetic() {
    let vm = run_both(
        vec![(
            "Sys".to_owned(),
            sys(vec![
                push(PushSegment::Constant, 1337),
                push(PushSegment::Constant, 2337),
                VMCommand::Add,
                push(PushSegment::Constant, 1000),
                VMCommand::Sub,
                VMCommand::Neg,
                push(PushSegment::Constant, 5),
                VMCommand::Lt,
            ]),
        )],
        9,
    );
    assert_eq!(top(&vm), -1);
}

#[test]
fn test_dispatch_segments() {
    let vm = run_both(
        vec![(
            "Sys".to_owned(),
            sys(vec![
                push(PushSegment::Constant, 3000),
                pop(PopSegment::Pointer, 0),
                push(PushSegment::Constant, 1337),
                pop(PopSegment::This, 4),
                push(PushSegment::This, 4),
                pop(PopSegment::Static, 2),
                push(PushSegment::Static, 2),
                pop(PopSegment::Temp, 3),
                push(PushSegment::Constant, 7),
                pop(PopSegment::Temp, 0),
                push(PushSegment::Temp, 0),
            ]),
        )],
        12,
    );
    assert_eq!(top(&vm), 7);
}

#[test]
fn test_dispatch_if_goto() {
    let vm = run_both(
        vec![(
            "Sys".to_owned(),
            sys(vec![
                push(PushSegment::Constant, 0),
                pop(PopSegment::Temp, 0),
                VMCommand::Label { name: "LOOP".to_owned() },
                push(PushSegment::Temp, 0),
                push(PushSegment::Constant, 1),
                VMCommand::Add,
                pop(PopSegment::Temp, 0),
                push(PushSegment::Temp, 0),
                push(PushSegment::Constant, 5),
                VMCommand::Lt,
                VMCommand::IfGoto { label_name: "LOOP".to_owned() },
                push(PushSegment::Temp, 0),
            ]),
        )],
        60,
    );
    assert_eq!(top(&vm), 5);
}

#[test]
fn test_dispatch_call_return() {
    let vm = run_both(
        vec![
            (
                "Sys".to_owned(),
                sys(vec![
                    push(PushSegment::Constant, 3),
                    push(PushSegment::Constant, 4),
                    call("Main.add", 2),
                    push(PushSegment::Constant, 6),
                    push(PushSegment::Constant, 7),
                    call("Math.multiply", 2),
                    VMCommand::Add,
                ]),
            ),
            (
                "Main".to_owned(),
                vec![
                    function("Main.add", 1),
                    push(PushSegment::Argument, 0),
                    push(PushSegment::Argument, 1),
                    VMCommand::Add,
                    pop(PopSegment::Local, 0),
                    push(PushSegment::Local, 0),
                    VMCommand::Return,
                ],
            ),
        ],
        16,
    );
    assert_eq!(top(&vm), 49);
}

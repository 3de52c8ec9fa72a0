use nand2tetris::hack_to_wasm::{
    hack_dynamic_slow, hack_expression_from_cases, hack_instr_to_wasm, hack_to_dynamic_cases, hack_to_static_cases,
    BranchTarget, HackGlobal, WasmInstr, WasmLocal,
};
use nand2tetris::hardware::{Hardware, Instruction};

/// A frame of the straight-line code that compiled Hack instructions are made of.
#[derive(Clone, Debug, PartialEq)]
struct Frame {
    stack: Vec<i32>,
    a: i32,
    d: i32,
    ticks: i32,
    jump_target: i32,
    ram_address: i32,
    result: i32,
    limit: i32,
    memory: Vec<i32>,
    branch: Option<BranchTarget>,
}

impl Frame {
    fn local(&self, l: WasmLocal) -> i32 {
        match l {
            WasmLocal::A => self.a,
            WasmLocal::D => self.d,
            WasmLocal::Ticks => self.ticks,
            WasmLocal::JumpTarget => self.jump_target,
            WasmLocal::RamAddress => self.ram_address,
            WasmLocal::Result => self.result,
            WasmLocal::Limit => self.limit,
        }
    }

    fn set_local(&mut self, l: WasmLocal, v: i32) {
        match l {
            WasmLocal::A => self.a = v,
            WasmLocal::D => self.d = v,
            WasmLocal::Ticks => self.ticks = v,
            WasmLocal::JumpTarget => self.jump_target = v,
            WasmLocal::RamAddress => self.ram_address = v,
            WasmLocal::Result => self.result = v,
            WasmLocal::Limit => self.limit = v,
        }
    }
}

fn run(code: &[WasmInstr], frame: &mut Frame) {
    for instr in code {
        if frame.branch.is_some() {
            return;
        }
        match *instr {
            WasmInstr::I32Const(c) => frame.stack.push(c),
            WasmInstr::LocalGet(l) => {
                let v = frame.local(l);
                frame.stack.push(v)
            }
            WasmInstr::LocalSet(l) => {
                let v = frame.stack.pop().unwrap();
                frame.set_local(l, v)
            }
            WasmInstr::LocalTee(l) => {
                let v = *frame.stack.last().unwrap();
                frame.set_local(l, v)
            }
            WasmInstr::I32Extend16S => {
                let v = frame.stack.pop().unwrap();
                frame.stack.push(v as i16 as i32)
            }
            WasmInstr::I32Eqz => {
                let v = frame.stack.pop().unwrap();
                frame.stack.push((v == 0) as i32)
            }
            WasmInstr::I32Load => {
                let p = frame.stack.pop().unwrap();
                assert!(p >= 0 && p % 4 == 0);
                let v = frame.memory[(p / 4) as usize];
                frame.stack.push(v)
            }
            WasmInstr::I32Store => {
                let v = frame.stack.pop().unwrap();
                let p = frame.stack.pop().unwrap();
                assert!(p >= 0 && p % 4 == 0);
                frame.memory[(p / 4) as usize] = v;
            }
            WasmInstr::Br(t) => frame.branch = Some(t),
            WasmInstr::BrIf(t) => {
                let c = frame.stack.pop().unwrap();
                if c != 0 {
                    frame.branch = Some(t);
                }
            }
            binary => {
                let y = frame.stack.pop().unwrap();
                let x = frame.stack.pop().unwrap();
                let r = match binary {
                    WasmInstr::I32Add => x.wrapping_add(y),
                    WasmInstr::I32Sub => x.wrapping_sub(y),
                    WasmInstr::I32And => x & y,
                    WasmInstr::I32Or => x | y,
                    WasmInstr::I32Xor => x ^ y,
                    WasmInstr::I32Shl => x.wrapping_shl(y as u32),
                    WasmInstr::I32Ne => (x != y) as i32,
                    WasmInstr::I32LeS => (x <= y) as i32,
                    WasmInstr::I32GeS => (x >= y) as i32,
                    WasmInstr::I32LtS => (x < y) as i32,
                    WasmInstr::I32GtS => (x > y) as i32,
                    _ => unreachable!(),
                };
                frame.stack.push(r)
            }
        }
    }
}

fn frame_of(hardware: &Hardware) -> Frame {
    Frame {
        stack: vec![],
        a: hardware.a as i32,
        d: hardware.d as i32,
        ticks: 41,
        jump_target: -5,
        ram_address: 0,
        result: 0,
        limit: 0,
        memory: hardware.ram.contents.iter().map(|w| *w as i32).collect(),
        branch: None,
    }
}

const COMPS: [u16; 28] = [
    0x01AA, 0x01BF, 0x01BA, 0x018C, 0x01B0, 0x01F0, 0x018D, 0x01B1, 0x01F1, 0x018F, 0x01B3,
    0x01F3, 0x019F, 0x01B7, 0x01F7, 0x018E, 0x01B2, 0x01F2, 0x0182, 0x01C2, 0x0193, 0x0187,
    0x01D3, 0x01C7, 0x0180, 0x01C0, 0x0195, 0x01D5,
];

#[test]
fn test_compiled_instructions_execute_as_hardware() {
    for &(a, d, m) in &[(100i16, -7i16, 12345i16), (200, 32767, -32768), (7, 0, 1)] {
        for &comp in COMPS.iter() {
            for dest in 0u16..8 {
                for jump in 0u16..8 {
                    let raw = 0x8000 | (comp << 6) | (dest << 3) | jump;
                    let instruction = Instruction::new(raw);
                    let mut hardware = Hardware::default();
                    hardware.rom[0] = instruction;
                    hardware.a = a;
                    hardware.d = d;
                    hardware.ram.contents[a as usize] = m;
                    let mut frame = frame_of(&hardware);
                    run(&hack_instr_to_wasm(&instruction, BranchTarget::Loop), &mut frame);
                    hardware.step();

                    assert!(frame.stack.is_empty());
                    assert_eq!(frame.a, hardware.a as i32);
                    assert_eq!(frame.d, hardware.d as i32);
                    assert_eq!(frame.ticks, 42);
                    assert_eq!(frame_of(&hardware).memory, frame.memory);
                    let jumped = hardware.pc == a;
                    assert_eq!(frame.branch.is_some(), jumped);
                    assert_eq!(frame.jump_target, if jump != 0 { a as i32 } else { -5 });
                }
            }
        }
    }
}

#[test]
fn test_compiled_a_instruction() {
    let code = hack_instr_to_wasm(&Instruction::new(5), BranchTarget::Loop);
    assert_eq!(
        code,
        vec![
            WasmInstr::I32Const(1),
            WasmInstr::LocalGet(WasmLocal::Ticks),
            WasmInstr::I32Add,
            WasmInstr::LocalSet(WasmLocal::Ticks),
            WasmInstr::I32Const(5),
            WasmInstr::LocalSet(WasmLocal::A),
        ]
    );
}

#[test]
fn test_compiled_d_plus_a() {
    // D=D+A
    let code = hack_instr_to_wasm(&Instruction::new(0xE090), BranchTarget::Loop);
    assert_eq!(
        code[4..].to_vec(),
        vec![
            WasmInstr::LocalGet(WasmLocal::D),
            WasmInstr::LocalGet(WasmLocal::A),
            WasmInstr::I32Add,
            WasmInstr::I32Extend16S,
            WasmInstr::LocalSet(WasmLocal::D),
        ]
    );
}

#[test]
fn test_compiled_m_increment_with_jump() {
    // M=M+1;JGT
    let code = hack_instr_to_wasm(&Instruction::new(0xFDC9), BranchTarget::Loop);
    assert_eq!(
        code[4..].to_vec(),
        vec![
            WasmInstr::LocalGet(WasmLocal::A),
            WasmInstr::LocalSet(WasmLocal::JumpTarget),
            WasmInstr::LocalGet(WasmLocal::A),
            WasmInstr::I32Const(2),
            WasmInstr::I32Shl,
            WasmInstr::LocalTee(WasmLocal::RamAddress),
            WasmInstr::LocalGet(WasmLocal::RamAddress),
            WasmInstr::I32Load,
            WasmInstr::I32Const(1),
            WasmInstr::I32Add,
            WasmInstr::I32Extend16S,
            WasmInstr::LocalTee(WasmLocal::Result),
            WasmInstr::I32Store,
            WasmInstr::LocalGet(WasmLocal::Result),
            WasmInstr::I32Const(0),
            WasmInstr::I32GtS,
            WasmInstr::BrIf(BranchTarget::Loop),
        ]
    );
}

#[test]
fn test_compiled_unconditional_jump_to_block() {
    // 0;JMP: the value is not needed, and no jump target is saved for a block branch
    let code = hack_instr_to_wasm(&Instruction::new(0xEA87), BranchTarget::Depth(3));
    assert_eq!(code[4..].to_vec(), vec![WasmInstr::Br(BranchTarget::Depth(3))]);
}

#[test]
fn test_static_cases() {
    let program = [
        Instruction::new(0x0003), // @3
        Instruction::new(0xEA87), // 0;JMP
        Instruction::new(0xEC10), // D=A
        Instruction::new(0xE090), // D=D+A
    ];
    let (cases, overrides) = hack_to_static_cases(&program);
    assert_eq!(overrides, vec![(0, 5), (3, 6), (4, 7)]);
    assert_eq!(cases.len(), 7);
    let code = |i: usize, target: BranchTarget| hack_instr_to_wasm(&program[i], target);
    assert_eq!(cases[0], code(0, BranchTarget::Loop));
    assert_eq!(cases[1], code(1, BranchTarget::Loop));
    let mut case2 = code(2, BranchTarget::Loop);
    case2.push(WasmInstr::Br(BranchTarget::Depth(3)));
    assert_eq!(cases[2], case2);
    let mut case3 = code(3, BranchTarget::Loop);
    case3.push(WasmInstr::Br(BranchTarget::Depth(3)));
    assert_eq!(cases[3], case3);
    assert_eq!(cases[4], vec![WasmInstr::Br(BranchTarget::Depth(2))]);
    let mut block0 = code(0, BranchTarget::Loop);
    block0.extend(code(1, BranchTarget::Depth(0)));
    block0.extend(code(2, BranchTarget::Loop));
    assert_eq!(cases[5], block0);
    assert_eq!(cases[6], code(3, BranchTarget::Loop));
}

#[test]
fn test_static_cases_empty_program() {
    let (cases, overrides) = hack_to_static_cases(&[]);
    assert_eq!(overrides, vec![(0, 1)]);
    assert_eq!(cases, vec![vec![WasmInstr::Br(BranchTarget::Depth(0))]]);
}

#[test]
fn test_dynamic_cases() {
    let program = [Instruction::new(0x0003), Instruction::new(0xE090)];
    let (cases, overrides) = hack_to_dynamic_cases(&program);
    assert!(overrides.is_empty());
    assert_eq!(cases[1], hack_instr_to_wasm(&program[1], BranchTarget::Loop));
    let slow = hack_dynamic_slow(&program);
    let mut expected = hack_instr_to_wasm(&program[1], BranchTarget::Loop);
    expected.extend([
        WasmInstr::I32Const(2),
        WasmInstr::LocalSet(WasmLocal::JumpTarget),
        WasmInstr::Br(BranchTarget::Loop),
    ]);
    assert_eq!(slow[1], expected);
}

#[test]
fn test_dispatch_rounds_run_as_hardware() {
    // D = 5; LOOP: D = D - 1; @LOOP; D;JGT; @END; END: 0;JMP
    let program = [
        Instruction::new(0x0005),
        Instruction::new(0xEC10),
        Instruction::new(0xE390),
        Instruction::new(0x0002),
        Instruction::new(0xE301),
        Instruction::new(0x0006),
        Instruction::new(0xEA87),
    ];
    let cases = hack_dynamic_slow(&program);
    let mut hardware = Hardware::default();
    for (i, instruction) in program.iter().enumerate() {
        hardware.rom[i] = *instruction;
    }
    let mut frame = frame_of(&hardware);
    frame.jump_target = 0;
    for _ in 0..25 {
        frame.branch = None;
        let case = &cases[frame.jump_target as usize];
        run(case, &mut frame);
        hardware.step();
        assert_eq!(frame.branch, Some(BranchTarget::Loop));
        assert!(frame.stack.is_empty());
        assert_eq!(frame.a, hardware.a as i32);
        assert_eq!(frame.d, hardware.d as i32);
        assert_eq!(frame.jump_target, hardware.pc as i32);
        assert_eq!(frame_of(&hardware).memory, frame.memory);
    }
    assert_eq!(hardware.d, 0);
    assert_eq!(hardware.pc, 6);
}

#[test]
fn test_hack_expression_from_cases() {
    let cases = vec![vec![WasmInstr::I32Const(1)], vec![], vec![WasmInstr::Br(BranchTarget::Loop)]];
    let (code, table) = hack_expression_from_cases(cases, &[(1, 7)], true);
    assert_eq!(table, vec![0, 7, 2]);
    let expected = vec![
        WasmInstr::GlobalGet(HackGlobal::A),
        WasmInstr::LocalSet(WasmLocal::A),
        WasmInstr::GlobalGet(HackGlobal::D),
        WasmInstr::LocalSet(WasmLocal::D),
        WasmInstr::GlobalGet(HackGlobal::JumpTarget),
        WasmInstr::LocalSet(WasmLocal::JumpTarget),
        WasmInstr::Loop,
        WasmInstr::LocalGet(WasmLocal::Ticks),
        WasmInstr::LocalGet(WasmLocal::Limit),
        WasmInstr::I32GeU,
        WasmInstr::If,
        WasmInstr::LocalGet(WasmLocal::A),
        WasmInstr::GlobalSet(HackGlobal::A),
        WasmInstr::LocalGet(WasmLocal::D),
        WasmInstr::GlobalSet(HackGlobal::D),
        WasmInstr::LocalGet(WasmLocal::JumpTarget),
        WasmInstr::GlobalSet(HackGlobal::JumpTarget),
        WasmInstr::LocalGet(WasmLocal::Ticks),
        WasmInstr::Return,
        WasmInstr::End,
        WasmInstr::Block,
        WasmInstr::Block,
        WasmInstr::Block,
        WasmInstr::Block,
        WasmInstr::LocalGet(WasmLocal::JumpTarget),
        WasmInstr::BrTable(3),
        WasmInstr::End,
        WasmInstr::I32Const(1),
        WasmInstr::End,
        WasmInstr::End,
        WasmInstr::Br(BranchTarget::Loop),
        WasmInstr::End,
        WasmInstr::End,
        WasmInstr::I32Const(3),
        WasmInstr::GlobalSet(HackGlobal::JumpTarget),
        WasmInstr::LocalGet(WasmLocal::Ticks),
    ];
    assert_eq!(code, expected);
    let (plain, _) = hack_expression_from_cases(vec![], &[], false);
    assert_eq!(plain.len(), 7 + 1 + 2 + 1 + 4);
}

#[test]
fn test_static_switch_runs_as_hardware() {
    // RAM[0] = 3; LOOP: RAM[0] = RAM[0] - 1; D = RAM[0]; @LOOP; D;JGT; @END; END: 0;JMP
    let program = [
        Instruction::new(0x0003),
        Instruction::new(0xEC10),
        Instruction::new(0x0000),
        Instruction::new(0xE308),
        Instruction::new(0x0000),
        Instruction::new(0xFC88),
        Instruction::new(0xFC10),
        Instruction::new(0x0004),
        Instruction::new(0xE301),
        Instruction::new(0x0009),
        Instruction::new(0xEA87),
    ];
    let (cases, overrides) = hack_to_static_cases(&program);
    assert_eq!(overrides, vec![(0, 12), (4, 13), (9, 14), (11, 15)]);
    let case_of = |pc: i32| match overrides.iter().find(|o| o.0 as i32 == pc) {
        Some(o) => o.1 as usize,
        None => pc as usize,
    };
    let mut hardware = Hardware::default();
    for (i, instruction) in program.iter().enumerate() {
        hardware.rom[i] = *instruction;
    }
    let mut frame = frame_of(&hardware);
    let mut c = case_of(hardware.pc as i32);
    for _ in 0..12 {
        assert_eq!(c, case_of(hardware.pc as i32));
        frame.branch = None;
        let before = frame.ticks;
        run(&cases[c], &mut frame);
        for _ in 0..(frame.ticks - before) {
            hardware.step();
        }
        assert!(frame.stack.is_empty());
        assert_eq!(frame.a, hardware.a as i32);
        assert_eq!(frame.d, hardware.d as i32);
        assert_eq!(frame_of(&hardware).memory, frame.memory);
        c = match frame.branch {
            None => c + 1,
            Some(BranchTarget::Depth(k)) => c + 1 + k as usize,
            Some(BranchTarget::Loop) => case_of(frame.jump_target),
        };
    }
    assert_eq!(hardware.ram.contents[0], 0);
    assert_eq!(hardware.pc, 9);
}

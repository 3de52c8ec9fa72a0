use nand2tetris::hardware::{Breakpoint, BreakpointVar, Hardware, Instruction};
use nand2tetris::hardware_parse::{assembles, parse_instructions};

#[test]
fn test_ready_to_step_fresh_machine() {
    let hardware = Hardware::default();
    assert!(hardware.ready_to_step());
}

#[test]
fn test_not_ready_at_last_address() {
    let mut hardware = Hardware::default();
    hardware.pc = i16::MAX;
    // the A-instruction there would move PC past the last address
    assert!(!hardware.ready_to_step());
    // a jump that is taken does not
    hardware.rom[i16::MAX as usize] = Instruction::new(0xEA87); // 0;JMP
    assert!(hardware.ready_to_step());
}

#[test]
fn test_not_ready_for_negative_m() {
    let mut hardware = Hardware::default();
    hardware.rom[0] = Instruction::new(0xFC10); // D=M
    hardware.a = -1;
    assert!(!hardware.ready_to_step());
    hardware.a = 5;
    assert!(hardware.ready_to_step());
}

#[test]
fn test_not_ready_for_unreadable_breakpoint() {
    let mut hardware = Hardware::default();
    hardware.rom[0] = Instruction::new(0x7FFF); // @32767
    hardware.add_breakpoint(&Breakpoint { var: BreakpointVar::Mem(-3), value: 0 });
    assert!(!hardware.ready_to_step());
    // a breakpoint that is hit first stops the scan before the unreadable one
    let mut hardware = Hardware::default();
    hardware.rom[0] = Instruction::new(0x7FFF);
    hardware.add_breakpoint(&Breakpoint { var: BreakpointVar::A, value: 32767 });
    hardware.add_breakpoint(&Breakpoint { var: BreakpointVar::Mem(-3), value: 0 });
    assert!(hardware.ready_to_step());
    assert!(hardware.step());
}

#[test]
fn test_assembles() {
    let (_, items) = parse_instructions("@x\nD=A\n(LOOP)\n@LOOP\n0;JMP\n").unwrap();
    assert!(assembles(&items));
    let (_, items) = parse_instructions("(L)\n@1\n(L)\n").unwrap();
    assert!(!assembles(&items));
}

use nand2tetris::hardware::{DestinationRegisters, Hardware, Instruction, JumpCondition};

#[test]
fn test_increment() {
    let mut hardware = Hardware::default();
    hardware.rom[0] = Instruction::from_legacy(59344);
    hardware.d = 1337;

    let mut expected_hardware = hardware.clone();
    hardware.step();

    expected_hardware.d = 1338;
    expected_hardware.pc = 1;
    assert_eq!(hardware, expected_hardware);
}

#[test]
fn hardware_test_add() {
    let mut hardware = Hardware::default();
    hardware.rom[0] = Instruction::from_legacy(57488);
    hardware.a = 1337;
    hardware.d = 1337;

    let mut expected_hardware = hardware.clone();
    hardware.step();

    expected_hardware.d = 1337 * 2;
    expected_hardware.pc = 1;
    assert_eq!(hardware, expected_hardware);
}

#[test]
fn test_sub_minus_1() {
    let mut hardware = Hardware::default();
    hardware.rom[0] = Instruction::create(DestinationRegisters::D, 0x186, JumpCondition::NoJump);
    hardware.a = 1234;
    hardware.d = 2345;

    let mut expected_hardware = hardware.clone();
    hardware.step();

    expected_hardware.d = 1110;
    expected_hardware.pc = 1;
    assert_eq!(hardware.a, expected_hardware.a);
}

#[test]
fn test_zero() {
    let mut hardware = Hardware::default();
    hardware.rom[0] = Instruction::from_legacy(60048);
    hardware.d = 1337;

    let mut expected_hardware = hardware.clone();
    hardware.step();

    expected_hardware.d = 0;
    expected_hardware.pc = 1;
    assert_eq!(hardware, expected_hardware);
}

#[test]
fn test_load() {
    let mut hardware = Hardware::default();
    hardware.rom[0] = Instruction::from_legacy(1337);

    let mut expected_hardware = hardware.clone();
    hardware.step();

    expected_hardware.a = 1337;
    expected_hardware.pc = 1;
    assert_eq!(hardware, expected_hardware);
}

#[test]
fn hardware_test_integration() {
    let mut hardware = Hardware::default();
    let program: [u16; 16] = [
        15, 60040, 14, 64528, 15, 58114, 13, 64528, 15, 61576, 14, 64648, 2, 60039, 15, 60039,
    ];
    let instructions: Vec<Instruction> = program.iter().map(|raw| Instruction::from_legacy(*raw)).collect();
    hardware.load_program(&instructions);

    hardware.ram.contents[13] = 34;
    hardware.ram.contents[14] = 12;

    hardware.run_program(program.len());

    assert_eq!(hardware.ram.contents[15], 34 * 12);
}

#[test]
fn test_jump_setting_a() {
    let mut hardware = Hardware::default();
    hardware.load_program(&[Instruction::create(
        DestinationRegisters::A,
        0x01BF, // 1
        JumpCondition::JMP,
    )]);
    hardware.step();

    assert_eq!(hardware.pc, 0);
}

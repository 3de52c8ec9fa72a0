use nand2tetris::hardware::Instruction;
use nand2tetris::hardware_parse::{instruction, parse_instructions, AssemblyInstruction};

const COMPS: [u16; 28] = [
    0x01AA, 0x01BF, 0x01BA, 0x018C, 0x01B0, 0x01F0, 0x018D, 0x01B1, 0x01F1, 0x018F, 0x01B3, 0x01F3,
    0x019F, 0x01B7, 0x01F7, 0x018E, 0x01B2, 0x01F2, 0x0182, 0x01C2, 0x0193, 0x0187, 0x01D3, 0x01C7,
    0x0180, 0x01C0, 0x0195, 0x01D5,
];

#[test]
fn test_c_instruction_text_reads_back() {
    for comp in COMPS {
        for dest in 0..8u16 {
            for jump in 0..8u16 {
                let raw = 0x8000 | (comp << 6) | (dest << 3) | jump;
                let text = Instruction::new(raw).to_string();
                assert_eq!(
                    instruction(&text),
                    Ok(("".to_string(), AssemblyInstruction::Instruction(Instruction::new(raw)))),
                    "{text}"
                );
                let (rest, items) = parse_instructions(&text).unwrap();
                assert_eq!(rest, "");
                assert_eq!(items, vec![AssemblyInstruction::Instruction(Instruction::new(raw))]);
            }
        }
    }
}

#[test]
fn test_a_instruction_text_reads_back() {
    for raw in (0..0x8000u16).step_by(97).chain([0, 1, 9, 10, 0x7fff]) {
        let text = Instruction::new(raw).to_string();
        assert_eq!(
            instruction(&text),
            Ok(("".to_string(), AssemblyInstruction::AtNumberInstruction(raw as i16))),
            "{text}"
        );
    }
}

#[test]
fn test_instruction_text_examples() {
    assert_eq!(Instruction::new(0x8000 | (0x0182 << 6) | (3 << 3) | 7).to_string(), "MD=A+D;JMP");
    assert_eq!(Instruction::new(0x8000 | (0x01AA << 6) | 2).to_string(), "0;JEQ");
    assert_eq!(Instruction::new(21).to_string(), "@21");
}

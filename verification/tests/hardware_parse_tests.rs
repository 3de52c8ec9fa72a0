use nand2tetris::hardware::Instruction;
use nand2tetris::hardware_parse::{
    assemble_hack_file, compare_no_whitespace, instruction, parse_destination_registers, AssemblyInstruction,
    CompareResult,
};

#[test]
fn hardware_parse_test_integration() {
    let program = r#"
        // some comments
        @16384
        D=A
        @16 // inline comments
        M=D-1
        @17
        M=0
        @24576
        D=M
        @12
        D;JEQ
        @17
        M=-1
        @17
        D=M
        @16
        AM=M+1
        M=D
        @24576
        D=A-1
        @16
        D=D-M
        @4
        D;JGE
        @16384
        D=A
        @16
        M=D-1
        @4
        0;JMP"#;

    let expected_program: Vec<_> = [
        16384, 60432, 16, 58248, 17, 60040, 24576, 64528, 12, 58114, 17, 61064, 17, 64528, 16,
        65000, 58120, 24576, 60560, 16, 62672, 4, 58115, 16384, 60432, 16, 58248, 4, 60039,
    ]
    .iter()
    .map(|raw| Instruction::new(*raw))
    .collect();

    assert_eq!(assemble_hack_file(program), Ok(("".to_string(), expected_program)))
}

#[test]
fn test_target_a() {
    assert_eq!(
        instruction("M = D  -   1   "),
        Ok(("".to_string(), AssemblyInstruction::Instruction(Instruction::new(58248))))
    );
}

#[test]
fn test_parse_destination() {
    assert!(parse_destination_registers("=").is_err(),);
}

#[test]
fn test_at_number() {
    assert_eq!(instruction("@1337"), Ok(("".to_string(), AssemblyInstruction::AtNumberInstruction(1337))));
}

#[test]
fn test_at_identifier() {
    assert_eq!(
        instruction("@Bob123"),
        Ok(("".to_string(), AssemblyInstruction::AtIdentifierInstruction("Bob123".to_string())))
    );
}

#[test]
fn test_at_label() {
    assert_eq!(instruction("(Bob321)"), Ok(("".to_string(), AssemblyInstruction::Label("Bob321".to_string()))));
}

#[test]
fn test_equal_without_target() {
    assert!(instruction("=D;JEQ").is_err());
}

#[test]
fn test_invalid_target() {
    assert!(instruction("E=D;JEQ").is_err());
}

#[test]
fn test_invalid_and_valid_target() {
    assert!(instruction("AE=D;JEQ").is_err());
}

#[test]
fn test_duplicate_valid_target() {
    assert!(instruction("AAA=D;JEQ").is_err());
}

#[test]
fn test_compare_no_whitespace() {
    assert_eq!(compare_no_whitespace("ab", "abc"), CompareResult::Incomplete);
    assert_eq!(compare_no_whitespace("abc", "abd"), CompareResult::Error);
    assert_eq!(compare_no_whitespace("", "def"), CompareResult::Incomplete);

    assert_eq!(compare_no_whitespace("a b c", "def"), CompareResult::Error);
    assert_eq!(compare_no_whitespace("a  b", "ab"), CompareResult::Matched);
    assert_eq!(compare_no_whitespace("a  b", "abc"), CompareResult::Incomplete);
    assert_eq!(compare_no_whitespace("a b   c", "abd"), CompareResult::Error);
    assert_eq!(compare_no_whitespace("  ", "def"), CompareResult::Incomplete);
}

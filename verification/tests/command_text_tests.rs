use nand2tetris::vm::{PopSegment, PushSegment, VMCommand};
use nand2tetris::vm_parse::{command, commands};

fn sample_commands() -> Vec<VMCommand> {
    vec![
        VMCommand::Add,
        VMCommand::Push { segment: PushSegment::Constant, offset: 7 },
        VMCommand::Push { segment: PushSegment::That, offset: -32768 },
        VMCommand::Pop { segment: PopSegment::Temp, offset: 3 },
        VMCommand::Pop { segment: PopSegment::Pointer, offset: 1 },
        VMCommand::Sub,
        VMCommand::Neg,
        VMCommand::Eq,
        VMCommand::Gt,
        VMCommand::Lt,
        VMCommand::And,
        VMCommand::Or,
        VMCommand::Not,
        VMCommand::Label { name: "WHILE_EXP0".to_owned() },
        VMCommand::Goto { label_name: "END".to_owned() },
        VMCommand::IfGoto { label_name: "IF_TRUE1".to_owned() },
        VMCommand::Function { name: "Main.main".to_owned(), local_var_count: 2 },
        VMCommand::Call { function_name: "Math.multiply".to_owned(), argument_count: 2 },
        VMCommand::Return,
    ]
}

#[test]
fn test_command_text() {
    let texts: Vec<String> = sample_commands().iter().map(|c| c.to_string()).collect();
    assert_eq!(
        texts,
        vec![
            "add",
            "push constant 7",
            "push that -32768",
            "pop temp 3",
            "pop pointer 1",
            "sub",
            "neg",
            "eq",
            "gt",
            "lt",
            "and",
            "or",
            "not",
            "label WHILE_EXP0",
            "goto END",
            "if-goto IF_TRUE1",
            "function Main.main 2",
            "call Math.multiply 2",
            "return",
        ]
    );
}

#[test]
fn test_segment_text() {
    assert_eq!(PushSegment::Argument.to_string(), "argument");
    assert_eq!(PushSegment::Pointer.to_string(), "pointer");
    assert_eq!(PopSegment::Local.to_string(), "local");
    assert_eq!(PopSegment::Static.to_string(), "static");
}

#[test]
fn test_command_text_reads_back() {
    for c in sample_commands() {
        let text = c.to_string();
        let (rest, parsed) = command(&text).unwrap();
        assert_eq!(rest, "");
        assert_eq!(parsed, c);
        let (rest, all) = commands(&text).unwrap();
        assert_eq!(rest, "");
        assert_eq!(all, vec![c]);
    }
}

#[test]
fn test_program_text_reads_back() {
    let text: Vec<String> = sample_commands().iter().map(|c| c.to_string()).collect();
    let (rest, parsed) = commands(&text.join("\n")).unwrap();
    assert_eq!(rest, "");
    assert_eq!(parsed, sample_commands());
}

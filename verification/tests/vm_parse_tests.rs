use nand2tetris::vm::{PopSegment, PushSegment, VMCommand};
use nand2tetris::vm_parse::{command, commands, non_command_lines};

#[test]
fn test_read_push() {
    assert_eq!(
        command("push argument 0"),
        Ok(("".to_string(), VMCommand::Push { segment: PushSegment::Argument, offset: 0 }))
    );
}

#[test]
fn test_read_pop() {
    assert_eq!(
        command("pop local 1337"),
        Ok(("".to_string(), VMCommand::Pop { segment: PopSegment::Local, offset: 1337 }))
    );
}

#[test]
fn test_read_label() {
    assert_eq!(
        command("label Array.bob"),
        Ok(("".to_string(), VMCommand::Label { name: "Array.bob".to_owned() }))
    );
}

#[test]
fn test_read_function() {
    assert_eq!(
        command("function Array.bob 1337"),
        Ok(("".to_string(), VMCommand::Function { name: "Array.bob".to_owned(), local_var_count: 1337 }))
    );
}

#[test]
fn test_read_non_command_lines() {
    assert_eq!(non_command_lines("// comment 1 \n //comment2 \n\n"), Ok(("".to_string(), ())));
}

#[test]
fn vm_parse_test_integration() {
    let code = r#"
        function Array.new 0
        push argument 0
        push constant 0
        gt
        not
        if-goto IF_TRUE0
        // Comment
        //

        goto IF_FALSE0
        label IF_TRUE0
        push constant 2 // inline comment
        call Sys.error 1
        pop temp 0
        label IF_FALSE0
        push argument 0
        call Memory.alloc 1
        return

        function Array.dispose 0
        push argument 0
        pop pointer 0
        push pointer 0

        // Another comment
        call Memory.deAlloc 1
        pop temp 0
        push constant 0
        return               "#;
    let result = commands(code);

    assert_eq!(
        result,
        Ok((
            "".to_string(),
            vec![
                VMCommand::Function { name: "Array.new".to_owned(), local_var_count: 0 },
                VMCommand::Push { segment: PushSegment::Argument, offset: 0 },
                VMCommand::Push { segment: PushSegment::Constant, offset: 0 },
                VMCommand::Gt,
                VMCommand::Not,
                VMCommand::IfGoto { label_name: "IF_TRUE0".to_owned() },
                VMCommand::Goto { label_name: "IF_FALSE0".to_owned() },
                VMCommand::Label { name: "IF_TRUE0".to_owned() },
                VMCommand::Push { segment: PushSegment::Constant, offset: 2 },
                VMCommand::Call { function_name: "Sys.error".to_owned(), argument_count: 1 },
                VMCommand::Pop { segment: PopSegment::Temp, offset: 0 },
                VMCommand::Label { name: "IF_FALSE0".to_owned() },
                VMCommand::Push { segment: PushSegment::Argument, offset: 0 },
                VMCommand::Call { function_name: "Memory.alloc".to_owned(), argument_count: 1 },
                VMCommand::Return,
                VMCommand::Function { name: "Array.dispose".to_owned(), local_var_count: 0 },
                VMCommand::Push { segment: PushSegment::Argument, offset: 0 },
                VMCommand::Pop { segment: PopSegment::Pointer, offset: 0 },
                VMCommand::Push { segment: PushSegment::Pointer, offset: 0 },
                VMCommand::Call { function_name: "Memory.deAlloc".to_owned(), argument_count: 1 },
                VMCommand::Pop { segment: PopSegment::Temp, offset: 0 },
                VMCommand::Push { segment: PushSegment::Constant, offset: 0 },
                VMCommand::Return
            ]
        ))
    );
}

use nand2tetris::hardware::RAM;
use nand2tetris::vm::{Breakpoint, PopSegment, PushSegment, Register, VMCommand, VM};
use nand2tetris::vm_parse::{command, commands, non_command_lines};

fn push_constant(offset: i16) -> VMCommand {
    VMCommand::Push { segment: PushSegment::Constant, offset }
}

fn sys(commands: Vec<VMCommand>) -> VM {
    VM::from_all_file_commands(vec![("Sys".to_owned(), commands)])
}

fn program() -> Vec<VMCommand> {
    vec![
        VMCommand::Function { name: "Sys.init".to_owned(), local_var_count: 2 },
        push_constant(5),
        push_constant(7),
        VMCommand::Add,
        VMCommand::Pop { segment: PopSegment::Temp, offset: 1 },
        VMCommand::Push { segment: PushSegment::Temp, offset: 1 },
        VMCommand::Neg,
    ]
}

#[test]
fn running_in_parts_is_running_at_once() {
    let mut once = sys(program());
    once.run(7);
    let mut parts = sys(program());
    parts.run(3);
    parts.run(4);
    assert_eq!(once.run_state.ram, parts.run_state.ram);
    assert_eq!(once.run_state.current_command_index, parts.run_state.current_command_index);
    let mut steps = sys(program());
    for _ in 0..7 {
        steps.step();
    }
    assert_eq!(once.run_state.ram, steps.run_state.ram);
    assert_eq!(once.run_state.ram.stack_top(), -12);
}

#[test]
fn function_pushes_zeroed_locals() {
    let mut vm = sys(program());
    vm.step();
    assert_eq!(vm.run_state.ram.contents[0], 258);
    assert_eq!(vm.run_state.ram.contents[256], 0);
    assert_eq!(vm.run_state.ram.contents[257], 0);
}

#[test]
fn push_then_pop_gives_back_the_value() {
    let mut ram = RAM::new();
    ram.push(1234);
    assert_eq!(ram.contents[0], 257);
    assert_eq!(ram.pop(), 1234);
    assert_eq!(ram.contents[0], 256);
    ram.set_stack_top(9);
    assert_eq!(ram.contents[255], 9);
}

#[test]
fn registers_and_segments() {
    assert_eq!(Register::SP.address(), 0);
    assert_eq!(Register::THAT.address(), 4);
    assert_eq!(Register::TEMP(3).address(), 8);
    let mut ram = RAM::default();
    ram.set(16, PopSegment::Static, 2, 99);
    assert_eq!(ram.contents[18], 99);
    assert_eq!(ram.get(16, PushSegment::Static, 2), 99);
    assert_eq!(ram.get(16, PushSegment::Constant, -5), -5);
}

#[test]
fn calls_to_the_os_and_call_counts() {
    let mut vm = sys(vec![
        VMCommand::Function { name: "Sys.init".to_owned(), local_var_count: 0 },
        push_constant(6),
        push_constant(7),
        VMCommand::Call { function_name: "Math.multiply".to_owned(), argument_count: 2 },
        push_constant(3),
        VMCommand::Call { function_name: "Math.abs".to_owned(), argument_count: 1 },
    ]);
    vm.run(4);
    assert_eq!(vm.run_state.ram.stack_top(), 42);
    assert_eq!(vm.run_state.ram.contents[0], 257);
    assert_eq!(vm.run_state.current_command_index, 4);
    vm.run(2);
    assert_eq!(vm.run_state.ram.stack_top(), 3);
    assert_eq!(vm.run_state.func_stats.get("Math.multiply"), Some(1));
    assert_eq!(vm.run_state.func_stats.get("Math.abs"), Some(1));
    assert_eq!(vm.run_state.func_stats.get("Sys.init"), None);
    let mut counts = vm.run_state.func_stats.entries();
    counts.sort();
    assert_eq!(counts, vec![("Math.abs".to_string(), 1), ("Math.multiply".to_string(), 1)]);
}

#[test]
fn reset_starts_over() {
    let mut vm = sys(program());
    vm.run(5);
    vm.add_breakpoint(&Breakpoint::SP(3));
    vm.reset();
    let fresh = sys(program());
    assert_eq!(vm.run_state.ram, fresh.run_state.ram);
    assert_eq!(vm.current_command_index(), 0);
    assert!(vm.get_breakpoints().is_empty());
    assert!(vm.is_ready());
}

#[test]
fn vm_accessors() {
    let mut vm = VM::from_all_file_commands(vec![
        ("Main".to_owned(), vec![push_constant(1)]),
        ("Sys".to_owned(), vec![VMCommand::Function { name: "Sys.init".to_owned(), local_var_count: 0 }]),
    ]);
    assert_eq!(vm.current_file_index(), 1);
    assert_eq!(vm.current_file_name(), "Sys");
    assert_eq!(vm.current_command_index(), 1);
    vm.set_ram_value(300, -5);
    assert_eq!(vm.get_ram_value(300), -5);
    assert_eq!(vm.copy_ram().contents[300], -5);
    vm.add_breakpoint(&Breakpoint::LCL(1));
    vm.add_breakpoint(&Breakpoint::ARG(2));
    vm.remove_breakpoint(0);
    assert_eq!(vm.get_breakpoints(), &vec![Breakpoint::ARG(2)]);
    let file = &vm.program.files[0];
    assert_eq!(file.commands(&vm.program.all_commands), &[push_constant(1)]);
}

#[test]
fn statics_of_each_file_follow_the_last() {
    let vm = VM::from_all_file_commands(vec![
        ("A".to_owned(), vec![VMCommand::Pop { segment: PopSegment::Static, offset: 3 }]),
        ("B".to_owned(), vec![VMCommand::Push { segment: PushSegment::Static, offset: 0 }]),
    ]);
    assert_eq!(vm.program.files[0].static_segment.start(), 16);
    assert_eq!(vm.program.files[0].static_segment.end(), 19);
    assert_eq!(vm.program.files[1].static_segment.start(), 20);
    assert_eq!(vm.program.files[1].static_segment.end(), 20);
}

#[test]
fn from_file_contents_uses_the_file_stem() {
    let vm = VM::from_file_contents(vec![
        ("Main.jack.vm".to_owned(), "push constant 1\n".to_owned()),
        ("Sys.vm".to_owned(), "function Sys.init 0\n".to_owned()),
    ]);
    assert_eq!(vm.program.file_name_to_index.get("Main.jack"), Some(0));
    assert_eq!(vm.program.file_name_to_index.get("Sys"), Some(1));
    assert_eq!(vm.program.function_name_to_index.get("Sys.init"), Some(0));
}

#[test]
fn breakpoint_texts() {
    assert_eq!(Breakpoint::RAM { address: 12, value: -3 }.variable_name(), "RAM[12]");
    assert_eq!(Breakpoint::ThatPointer { offset: 2, value: 0 }.variable_name(), "THIS[2]");
    assert_eq!(Breakpoint::CurrentFunction("Main.main".to_owned()).variable_name(), "Current Function");
    assert_eq!(Breakpoint::Line { file_name: "Main".to_owned(), line_number: 12 }.value(), "Main:12");
    assert_eq!(Breakpoint::Temp { offset: 1, value: -300 }.value(), "-300");
    assert_eq!(Breakpoint::SP(5).address(), None);
    assert_eq!(Breakpoint::Local { offset: 4, value: 0 }.address(), Some(4));
}

#[test]
fn breakpoint_changes() {
    let mut b = Breakpoint::RAM { address: 5, value: -123 };
    let text = b.value();
    b.change_value(text);
    assert_eq!(b, Breakpoint::RAM { address: 5, value: -123 });
    b.change_value("+77".to_owned());
    assert_eq!(b, Breakpoint::RAM { address: 5, value: 77 });
    b.change_value("40000".to_owned());
    assert_eq!(b, Breakpoint::RAM { address: 5, value: 77 });
    b.change_value("-".to_owned());
    b.change_value("12a".to_owned());
    assert_eq!(b, Breakpoint::RAM { address: 5, value: 77 });
    b.change_value("-32768".to_owned());
    assert_eq!(b, Breakpoint::RAM { address: 5, value: -32768 });
    b.change_address(9);
    assert_eq!(b, Breakpoint::RAM { address: 9, value: -32768 });
    let mut f = Breakpoint::CurrentFunction("a".to_owned());
    f.change_value("Main.run".to_owned());
    assert_eq!(f, Breakpoint::CurrentFunction("Main.run".to_owned()));
}

#[test]
fn parse_errors() {
    assert!(commands("").is_err());
    assert!(commands("add sub").is_err());
    assert!(commands("push constant 40000").is_err());
    assert!(commands("push constant -32768").is_ok());
    assert!(commands("pop constant 1").is_err());
    assert!(commands("// only a comment\n").is_err());
    assert!(command("popx").is_err());
    assert!(non_command_lines("add").is_err());
    assert_eq!(command("  add  rest"), Ok(("rest".to_string(), VMCommand::Add)));
    assert_eq!(non_command_lines("  \r\n// c\nadd"), Ok(("add".to_string(), ())));
}

#[test]
fn parse_all_commands() {
    let text = "push that 2\r\npop this 1\nlabel L_1\ngoto L_1\nif-goto L_1\ncall F.g 2\nfunction F.g 3\nsub\nneg\neq\ngt\nlt\nand\nor\nnot\nreturn";
    let (_, parsed) = commands(text).unwrap();
    assert_eq!(
        parsed,
        vec![
            VMCommand::Push { segment: PushSegment::That, offset: 2 },
            VMCommand::Pop { segment: PopSegment::This, offset: 1 },
            VMCommand::Label { name: "L_1".to_owned() },
            VMCommand::Goto { label_name: "L_1".to_owned() },
            VMCommand::IfGoto { label_name: "L_1".to_owned() },
            VMCommand::Call { function_name: "F.g".to_owned(), argument_count: 2 },
            VMCommand::Function { name: "F.g".to_owned(), local_var_count: 3 },
            VMCommand::Sub,
            VMCommand::Neg,
            VMCommand::Eq,
            VMCommand::Gt,
            VMCommand::Lt,
            VMCommand::And,
            VMCommand::Or,
            VMCommand::Not,
            VMCommand::Return,
        ]
    );
}

use nand2tetris::hardware::Word;
use nand2tetris::vm::{PopSegment, PushSegment, VMCommand, VM};

fn test_get(vm: &VM, segment: PushSegment, offset: Word) -> Word {
    vm.run_state.ram.get(
        vm.program.files[vm.run_state.current_file_index].static_segment.start(),
        segment,
        offset,
    )
}

fn test_set(vm: &mut VM, segment: PopSegment, offset: Word, value: Word) {
    let start = vm.program.files[vm.run_state.current_file_index].static_segment.start();
    vm.run_state.ram.set(start, segment, offset, value)
}

fn test_instance() -> VM {
    let mut vm = VM::from_all_file_commands(vec![(
        "foo".to_owned(),
        vec![VMCommand::Push { segment: PushSegment::Constant, offset: 666 }],
    )]);
    vm.run_state.current_file_index = 0;

    vm
}

fn push_constant(offset: Word) -> VMCommand {
    VMCommand::Push { segment: PushSegment::Constant, offset }
}

#[test]
fn vm_test_constant() {
    let vm = test_instance();

    assert_eq!(test_get(&vm, PushSegment::Constant, 1337), 1337);
}

#[test]
fn vm_test_static() {
    let all_file_commands = vec![
        (
            "a".to_owned(),
            vec![
                VMCommand::Push { segment: PushSegment::Static, offset: 0 },
                VMCommand::Pop { segment: PopSegment::Static, offset: 1 },
            ],
        ),
        (
            "b".to_owned(),
            vec![
                VMCommand::Push { segment: PushSegment::Static, offset: 1 },
                VMCommand::Pop { segment: PopSegment::Static, offset: 0 },
            ],
        ),
    ];

    let mut vm = VM::from_all_file_commands(all_file_commands);
    vm.run_state.current_file_index = vm.program.file_name_to_index.get("a").unwrap();

    test_set(&mut vm, PopSegment::Static, 0, 1337);
    vm.run_state.current_file_index = vm.program.file_name_to_index.get("b").unwrap();
    test_set(&mut vm, PopSegment::Static, 1, 2337);

    assert_eq!(test_get(&vm, PushSegment::Static, 0), 0);
    assert_eq!(test_get(&vm, PushSegment::Static, 1), 2337);
    vm.run_state.current_file_index = vm.program.file_name_to_index.get("a").unwrap();
    assert_eq!(test_get(&vm, PushSegment::Static, 0), 1337);
    assert_eq!(test_get(&vm, PushSegment::Static, 1), 0);
}

#[test]
fn vm_test_local() {
    let mut vm = test_instance();
    vm.run_state.ram.contents[1] = 1337;

    test_set(&mut vm, PopSegment::Local, 0, 2337);
    test_set(&mut vm, PopSegment::Local, 3, 3337);

    assert_eq!(test_get(&vm, PushSegment::Local, 0), 2337);
    assert_eq!(test_get(&vm, PushSegment::Local, 3), 3337);
    assert_eq!(vm.run_state.ram.contents[1337], 2337);
    assert_eq!(vm.run_state.ram.contents[1340], 3337);
}

#[test]
fn vm_test_argument() {
    let mut vm = test_instance();
    vm.run_state.ram.contents[2] = 1337;

    test_set(&mut vm, PopSegment::Argument, 0, 2337);
    test_set(&mut vm, PopSegment::Argument, 3, 3337);

    assert_eq!(test_get(&vm, PushSegment::Argument, 0), 2337);
    assert_eq!(test_get(&vm, PushSegment::Argument, 3), 3337);
    assert_eq!(vm.run_state.ram.contents[1337], 2337);
    assert_eq!(vm.run_state.ram.contents[1340], 3337);
}

#[test]
fn vm_test_this() {
    let mut vm = test_instance();
    vm.run_state.ram.contents[3] = 1337;

    test_set(&mut vm, PopSegment::This, 0, 2337);
    test_set(&mut vm, PopSegment::This, 3, 3337);

    assert_eq!(test_get(&vm, PushSegment::This, 0), 2337);
    assert_eq!(test_get(&vm, PushSegment::This, 3), 3337);
    assert_eq!(vm.run_state.ram.contents[1337], 2337);
    assert_eq!(vm.run_state.ram.contents[1340], 3337);
}

#[test]
fn vm_test_that() {
    let mut vm = test_instance();
    vm.run_state.ram.contents[4] = 1337;

    test_set(&mut vm, PopSegment::That, 0, 2337);
    test_set(&mut vm, PopSegment::That, 3, 3337);

    assert_eq!(test_get(&vm, PushSegment::That, 0), 2337);
    assert_eq!(test_get(&vm, PushSegment::That, 3), 3337);
    assert_eq!(vm.run_state.ram.contents[1337], 2337);
    assert_eq!(vm.run_state.ram.contents[1340], 3337);
}

#[test]
fn vm_test_temp() {
    let mut vm = test_instance();

    test_set(&mut vm, PopSegment::Temp, 0, 1337);
    test_set(&mut vm, PopSegment::Temp, 3, 2337);

    assert_eq!(test_get(&vm, PushSegment::Temp, 0), 1337);
    assert_eq!(test_get(&vm, PushSegment::Temp, 3), 2337);
    assert_eq!(vm.run_state.ram.contents[5], 1337);
    assert_eq!(vm.run_state.ram.contents[8], 2337);
}

#[test]
fn vm_test_pointer() {
    let mut vm = test_instance();

    test_set(&mut vm, PopSegment::Pointer, 0, 1337);
    test_set(&mut vm, PopSegment::Pointer, 1, 2337);

    assert_eq!(test_get(&vm, PushSegment::Pointer, 0), 1337);
    assert_eq!(vm.run_state.ram.contents[3], 1337);
    assert_eq!(test_get(&vm, PushSegment::Pointer, 1), 2337);
    assert_eq!(vm.run_state.ram.contents[4], 2337);
}

fn run_three(commands: Vec<VMCommand>) -> VM {
    let mut vm = VM::from_all_file_commands(vec![("a".to_owned(), commands)]);
    vm.run_state.current_file_index = vm.program.file_name_to_index.get("a").unwrap();
    vm.step();
    vm.step();
    vm.step();
    vm
}

#[test]
fn vm_test_add() {
    let vm = run_three(vec![push_constant(1337), push_constant(2337), VMCommand::Add]);

    assert_eq!(vm.run_state.ram.stack_top(), 1337 + 2337);
}

#[test]
fn vm_test_sub() {
    let vm = run_three(vec![push_constant(2337), push_constant(1337), VMCommand::Sub]);

    assert_eq!(vm.run_state.ram.stack_top(), 2337 - 1337);
}

#[test]
fn vm_test_neg() {
    let mut vm = VM::from_all_file_commands(vec![("a".to_owned(), vec![push_constant(1337), VMCommand::Neg])]);
    vm.run_state.current_file_index = vm.program.file_name_to_index.get("a").unwrap();
    vm.step();
    vm.step();

    assert_eq!(vm.run_state.ram.stack_top(), -1337);
}

fn compare_twice(first: (Word, Word), second: (Word, Word), command: VMCommand) -> (Word, Word) {
    let mut vm = VM::from_all_file_commands(vec![(
        "a".to_owned(),
        vec![
            push_constant(first.0),
            push_constant(first.1),
            command.clone(),
            push_constant(second.0),
            push_constant(second.1),
            command,
        ],
    )]);
    vm.run_state.current_file_index = vm.program.file_name_to_index.get("a").unwrap();
    vm.step();
    vm.step();
    vm.step();
    let first_top = vm.run_state.ram.stack_top();
    vm.step();
    vm.step();
    vm.step();
    (first_top, vm.run_state.ram.stack_top())
}

#[test]
fn vm_test_eq() {
    let (first, second) = compare_twice((2337, 1337), (1337, 1337), VMCommand::Eq);

    assert_eq!(first, 0);
    assert_eq!(second, -1);
}

#[test]
fn vm_test_gt() {
    let (first, second) = compare_twice((1337, 2337), (2337, 1337), VMCommand::Gt);

    assert_eq!(first, 0);
    assert_eq!(second, -1);
}

#[test]
fn vm_test_lt() {
    let (first, second) = compare_twice((2337, 1337), (1337, 2337), VMCommand::Lt);

    assert_eq!(first, 0);
    assert_eq!(second, -1);
}

#[test]
fn vm_test_and() {
    let vm = run_three(vec![push_constant(2337), push_constant(1337), VMCommand::And]);

    assert_eq!(vm.run_state.ram.stack_top(), 1337 & 2337);
}

#[test]
fn vm_test_or() {
    let vm = run_three(vec![push_constant(2337), push_constant(1337), VMCommand::Or]);

    assert_eq!(vm.run_state.ram.stack_top(), 1337 | 2337);
}

#[test]
fn vm_test_not() {
    let mut vm = VM::from_all_file_commands(vec![("a".to_owned(), vec![push_constant(1337), VMCommand::Not])]);
    vm.run_state.current_file_index = vm.program.file_name_to_index.get("a").unwrap();
    vm.step();
    vm.step();

    assert_eq!(vm.run_state.ram.stack_top(), -1338);
}

#[test]
fn vm_test_label() {
    let all_file_commands = vec![(
        "Sys".to_owned(),
        vec![
            VMCommand::Function { name: "Sys.init".to_owned(), local_var_count: 0 },
            VMCommand::Label { name: "foo".to_owned() },
        ],
    )];

    let mut vm = VM::from_all_file_commands(all_file_commands.clone());
    let vm2 = VM::from_all_file_commands(all_file_commands);
    vm.step();
    vm.step();

    assert_eq!(vm.run_state.ram, vm2.run_state.ram);
}

#[test]
fn vm_test_goto() {
    let all_file_commands = vec![(
        "Sys".to_owned(),
        vec![
            VMCommand::Function { name: "Sys.init".to_owned(), local_var_count: 0 },
            VMCommand::Goto { label_name: "foo".to_owned() },
            VMCommand::Label { name: "bar".to_owned() },
            VMCommand::Label { name: "foo".to_owned() },
        ],
    )];

    let mut vm = VM::from_all_file_commands(all_file_commands.clone());
    let vm2 = VM::from_all_file_commands(all_file_commands);
    vm.step();
    vm.step();

    assert_eq!(vm.run_state.ram, vm2.run_state.ram);
    assert_eq!(vm.run_state.current_command_index, 3);
}

#[test]
fn vm_test_if_goto() {
    let all_file_commands = vec![(
        "Sys".to_owned(),
        vec![
            VMCommand::Function { name: "Sys.init".to_owned(), local_var_count: 0 },
            push_constant(0),
            VMCommand::IfGoto { label_name: "bar".to_owned() },
            push_constant(1),
            VMCommand::IfGoto { label_name: "foo".to_owned() },
            VMCommand::Label { name: "bar".to_owned() },
            VMCommand::Label { name: "foo".to_owned() },
        ],
    )];

    let mut vm = VM::from_all_file_commands(all_file_commands.clone());
    vm.step();
    vm.step();
    vm.step();

    assert_eq!(vm.run_state.current_command_index, 3);

    vm.step();
    vm.step();

    assert_eq!(vm.run_state.current_command_index, 6);
}

#[test]
fn vm_test_call_return() {
    let all_file_commands = vec![(
        "Sys".to_owned(),
        vec![
            VMCommand::Function { name: "Sys.init".to_owned(), local_var_count: 0 },
            push_constant(1337),
            VMCommand::Call { function_name: "Sys.foo".to_owned(), argument_count: 1 },
            VMCommand::Label { name: "nop".to_owned() },
            VMCommand::Function { name: "Sys.foo".to_owned(), local_var_count: 1 },
            push_constant(2337),
            VMCommand::Return,
        ],
    )];

    let mut vm = VM::from_all_file_commands(all_file_commands.clone());
    vm.step();
    vm.step();
    vm.step();
    vm.step();
    vm.step();
    vm.step();

    assert_eq!(vm.run_state.current_command_index, 3);
    assert_eq!(vm.run_state.ram.stack_top(), 2337);
}

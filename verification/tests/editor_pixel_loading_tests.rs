use nand2tetris::breakpoint_editor::{reduce_breakpoint_hardware, BreakpointAction, HardwareState};
use nand2tetris::hardware::{Breakpoint, BreakpointVar, Hardware, Instruction, RAM};
use nand2tetris::vm::{PopSegment, PushSegment, VMCommand, VM};

fn editor() -> HardwareState {
    HardwareState { selected_breakpoint_var: BreakpointVar::A, breakpoint_value: 0, hardware: Hardware::default() }
}

#[test]
fn editor_changes_the_breakpoint_being_written() {
    let mut state = editor();
    reduce_breakpoint_hardware(&mut state, &BreakpointAction::VariableChanged(BreakpointVar::Mem(7)));
    reduce_breakpoint_hardware(&mut state, &BreakpointAction::ValueChanged(42));
    assert_eq!(state.selected_breakpoint_var, BreakpointVar::Mem(7));
    assert_eq!(state.breakpoint_value, 42);
    assert!(state.hardware.get_breakpoints().is_empty());
}

#[test]
fn editor_adds_and_removes_breakpoints() {
    let mut state = editor();
    reduce_breakpoint_hardware(&mut state, &BreakpointAction::ValueChanged(3));
    reduce_breakpoint_hardware(&mut state, &BreakpointAction::AddClicked);
    reduce_breakpoint_hardware(&mut state, &BreakpointAction::VariableChanged(BreakpointVar::D));
    reduce_breakpoint_hardware(&mut state, &BreakpointAction::ValueChanged(9));
    reduce_breakpoint_hardware(&mut state, &BreakpointAction::AddClicked);
    assert_eq!(
        state.hardware.get_breakpoints().clone(),
        vec![Breakpoint { var: BreakpointVar::A, value: 3 }, Breakpoint { var: BreakpointVar::D, value: 9 }]
    );
    reduce_breakpoint_hardware(&mut state, &BreakpointAction::RemoveClicked(0));
    assert_eq!(state.hardware.get_breakpoints().clone(), vec![Breakpoint { var: BreakpointVar::D, value: 9 }]);
}

#[test]
fn set_pixel_reads_back_and_leaves_neighbours() {
    let mut ram = RAM::zeroed();
    ram.set_pixel(17, 3, true);
    assert!(ram.get_pixel(17, 3));
    assert!(!ram.get_pixel(16, 3));
    assert!(!ram.get_pixel(18, 3));
    assert!(!ram.get_pixel(17, 4));
    assert_eq!(ram.read(16384 + 3 * 32 + 1), 2);
    ram.set_pixel(31, 3, true);
    assert_eq!(ram.read(16384 + 3 * 32 + 1), -32766);
    ram.set_pixel(17, 3, false);
    assert!(!ram.get_pixel(17, 3));
    assert!(ram.get_pixel(31, 3));
    assert_eq!(ram.read(16384 + 3 * 32 + 1), i16::MIN);
    assert_eq!(ram.read(16383), 0);
    assert_eq!(ram.read(24576), 0);
}

#[test]
fn loaded_files_give_back_their_commands() {
    let first = vec![
        VMCommand::Push { segment: PushSegment::Constant, offset: 1 },
        VMCommand::Pop { segment: PopSegment::Static, offset: 0 },
    ];
    let second = vec![
        VMCommand::Push { segment: PushSegment::Static, offset: 2 },
        VMCommand::Add,
        VMCommand::Pop { segment: PopSegment::Static, offset: 1 },
    ];
    let vm = VM::from_all_file_commands(vec![("A".to_owned(), first.clone()), ("B".to_owned(), second.clone())]);
    assert_eq!(vm.program.files.len(), 2);
    assert_eq!(vm.program.files[0].name, "A");
    assert_eq!(vm.program.files[1].name, "B");
    assert_eq!(vm.program.files[0].commands(&vm.program.all_commands), first.as_slice());
    assert_eq!(vm.program.files[1].commands(&vm.program.all_commands), second.as_slice());
}

#[test]
fn run_stops_after_the_first_hit() {
    let mut hardware = Hardware::default();
    // D=D+1 three times
    hardware.rom[0] = Instruction::from_legacy(59344);
    hardware.rom[1] = Instruction::from_legacy(59344);
    hardware.rom[2] = Instruction::from_legacy(59344);
    hardware.add_breakpoint(&Breakpoint { var: BreakpointVar::D, value: 2 });
    let mut no_steps = hardware.clone();
    assert!(!no_steps.run(0));
    assert_eq!(no_steps, hardware);
    assert!(hardware.run(3));
    assert_eq!(hardware.d, 2);
    assert_eq!(hardware.pc, 2);
}

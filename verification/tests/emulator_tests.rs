use nand2tetris::emulator::{
    dropped_program, keyboard_value_from_key, reduce_breakpoint_hardware, DroppedProgram, reduce_breakpoint_vm, reduce_common,
    reduce_vm_file_selected, run_steps, Breakpoint, BreakpointAction, CommonAction, HardwareState, Key,
    SharedState, VMState,
};
use nand2tetris::hardware::{self, BreakpointVar};
use nand2tetris::vm;

#[test]
fn keyboard_codes() {
    assert_eq!(keyboard_value_from_key(Some(Key::A), false), 97);
    assert_eq!(keyboard_value_from_key(Some(Key::A), true), 65);
    assert_eq!(keyboard_value_from_key(Some(Key::Z), false), 122);
    assert_eq!(keyboard_value_from_key(Some(Key::Num7), false), 55);
    assert_eq!(keyboard_value_from_key(Some(Key::ArrowUp), false), 131);
    assert_eq!(keyboard_value_from_key(Some(Key::F12), true), 152);
    assert_eq!(keyboard_value_from_key(Some(Key::Other), false), 0);
    assert_eq!(keyboard_value_from_key(None, false), 0);
}

#[test]
fn shared_state_defaults_and_common_actions() {
    let mut hardware = HardwareState::default();
    let mut shared = SharedState::default();
    assert_eq!(shared.desired_steps_per_second, 500000);
    assert!(!shared.run_started && shared.scroll_once && !shared.breakpoints_open);

    reduce_common(&mut hardware, &mut shared, &CommonAction::RunClicked);
    assert!(shared.run_started);
    reduce_common(&mut hardware, &mut shared, &CommonAction::PauseClicked);
    assert!(!shared.run_started);
    reduce_common(&mut hardware, &mut shared, &CommonAction::BreakpointsClicked);
    assert!(shared.breakpoints_open);
    reduce_common(&mut hardware, &mut shared, &CommonAction::BreakpointsClicked);
    assert!(!shared.breakpoints_open);
    reduce_common(&mut hardware, &mut shared, &CommonAction::BreakpointsClicked);
    reduce_common(&mut hardware, &mut shared, &CommonAction::BreakpointsClosed);
    assert!(!shared.breakpoints_open);
    reduce_common(&mut hardware, &mut shared, &CommonAction::SpeedSliderMoved(12));
    assert_eq!(shared.desired_steps_per_second, 12);
    reduce_common(&mut hardware, &mut shared, &CommonAction::StepClicked);
    assert_eq!(shared.desired_steps_per_second, 12);

    run_steps(&mut hardware, 5, None, false);
    assert_eq!(hardware.hardware.pc, 5);
    reduce_common(&mut hardware, &mut shared, &CommonAction::RunClicked);
    reduce_common(&mut hardware, &mut shared, &CommonAction::ResetClicked);
    assert!(!shared.run_started);
    assert_eq!(hardware.hardware.pc, 0);
    assert_eq!(hardware.hardware.rom[1], nand2tetris::hardware::Instruction::new(60432));
}

#[test]
fn run_steps_sets_the_keyboard_and_stops_at_breakpoints() {
    let mut hardware = HardwareState::default();
    assert!(run_steps(&mut hardware, 0, Some(Key::B), false));
    assert_eq!(hardware.hardware.ram.contents[24576], 0);
    assert!(run_steps(&mut hardware, 3, Some(Key::B), false));
    assert_eq!(hardware.hardware.ram.contents[24576], 98);
    hardware.hardware.add_breakpoint(&hardware::Breakpoint { var: BreakpointVar::PC, value: 5 });
    assert!(!run_steps(&mut hardware, 10, None, false));
    assert_eq!(hardware.hardware.pc, 5);
}

#[test]
fn hardware_breakpoint_actions() {
    let mut hardware = HardwareState::from_hack_file_contents("0000000000000111");
    assert_eq!(hardware.selected_breakpoint, hardware::Breakpoint { var: BreakpointVar::A, value: 0 });
    let chosen = hardware::Breakpoint { var: BreakpointVar::D, value: 3 };
    reduce_breakpoint_hardware(&mut hardware, &BreakpointAction::BreakpointChanged(Breakpoint::Hardware(chosen)));
    assert_eq!(hardware.selected_breakpoint, chosen);
    reduce_breakpoint_hardware(&mut hardware, &BreakpointAction::AddClicked);
    assert!(hardware.hardware.breakpoints.is_empty());
    hardware.hardware.step();
    assert_eq!(hardware.hardware.a, 7);
}

#[test]
fn hardware_state_from_assembly() {
    let mut hardware = HardwareState::from_file_contents("@5\nD=A\n");
    hardware.hardware.run(2);
    assert_eq!(hardware.hardware.d, 5);
}

#[test]
fn vm_state_actions() {
    let mut state = VMState::from_file_contents(vec![(
        "Sys.vm".to_owned(),
        "function Sys.init 0\npush constant 3\npush constant 4\nadd\n".to_owned(),
    )]);
    assert_eq!(state.selected_file, "Sys");
    assert_eq!(state.selected_breakpoint, vm::Breakpoint::SP(0));
    let mut shared = SharedState::default();
    assert!(run_steps(&mut state, 4, Some(Key::Space), false));
    assert_eq!(state.vm.run_state.ram.stack_top(), 7);
    assert_eq!(state.vm.run_state.ram.contents[24576], 32);

    reduce_breakpoint_vm(&mut state, &BreakpointAction::BreakpointChanged(Breakpoint::VM(vm::Breakpoint::ARG(4))));
    reduce_breakpoint_vm(&mut state, &BreakpointAction::AddClicked);
    assert_eq!(state.vm.get_breakpoints(), &vec![vm::Breakpoint::ARG(4)]);
    reduce_breakpoint_vm(&mut state, &BreakpointAction::RemoveClicked(0));
    assert!(state.vm.get_breakpoints().is_empty());

    reduce_vm_file_selected(&mut state, "Main");
    assert_eq!(state.selected_file, "Main");
    reduce_common(&mut state, &mut shared, &CommonAction::ResetClicked);
    assert_eq!(state.vm.run_state.ram.contents[0], 256);
    assert_eq!(state.selected_file, "Main");
}

#[test]
fn dropped_files_open_their_program() {
    let names = |ns: &[&str]| ns.iter().map(|n| n.to_string()).collect::<Vec<String>>();
    assert_eq!(dropped_program(&names(&["Pong.asm"])), DroppedProgram::Assembly);
    assert_eq!(dropped_program(&names(&["Main.vm", "Sys.vm"])), DroppedProgram::VmFiles);
    assert_eq!(dropped_program(&names(&["Main.vm"])), DroppedProgram::VmFiles);
    assert_eq!(dropped_program(&names(&["a.asm", "b.asm"])), DroppedProgram::Unknown);
    assert_eq!(dropped_program(&names(&["Main.vm", "notes.txt"])), DroppedProgram::Unknown);
    assert_eq!(dropped_program(&names(&["asm"])), DroppedProgram::Unknown);
    assert_eq!(dropped_program(&names(&[])), DroppedProgram::VmFiles);
}

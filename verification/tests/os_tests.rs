use nand2tetris::hardware::{Word, RAM};
use nand2tetris::maps::CallCounts;
use nand2tetris::os::OS;
use nand2tetris::vm::{PopSegment, RunState};

fn test_instance() -> RunState {
    let mut instance = RunState {
        current_file_index: 0,
        current_command_index: 0,
        ram: RAM::default(),
        os: OS::default(),
        call_stack: vec![],
        breakpoints: vec![],
        func_stats: CallCounts::new(),
    };

    instance.ram.contents[2] = 100;

    instance
}

#[test]
fn test_string() {
    let mut run_state = test_instance();
    run_state.ram.set(0, PopSegment::Argument, 0, 11);
    let s = run_state.string_new();
    assert!(s.is_positive());

    run_state.ram.set(0, PopSegment::Argument, 0, s);
    assert_eq!(run_state.string_length(), 0);

    run_state.ram.set(0, PopSegment::Argument, 1, '5' as u8 as Word);
    assert_eq!(run_state.string_append_char(), s);
    assert_eq!(run_state.string_length(), 1);

    run_state.ram.set(0, PopSegment::Argument, 1, 0);
    assert_eq!(run_state.string_char_at(), '5' as u8 as Word);
    assert_eq!(run_state.string_int_value(), 5);

    run_state.ram.set(0, PopSegment::Argument, 2, '9' as u8 as Word);
    assert_eq!(run_state.string_set_char_at(), 0);
    assert_eq!(run_state.string_char_at(), '9' as u8 as Word);
    assert_eq!(run_state.string_int_value(), 9);

    run_state.ram.set(0, PopSegment::Argument, 1, Word::MAX);
    assert_eq!(run_state.string_set_int(), 0);
    assert_eq!(run_state.string_length(), Word::MAX.to_string().len() as Word);
    assert_eq!(run_state.string_int_value(), Word::MAX);

    run_state.ram.set(0, PopSegment::Argument, 1, Word::MIN);
    assert_eq!(run_state.string_set_int(), 0);
    assert_eq!(run_state.string_length(), Word::MIN.to_string().len() as Word);
    assert_eq!(run_state.string_int_value(), Word::MIN);
}

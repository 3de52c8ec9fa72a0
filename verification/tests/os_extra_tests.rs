use nand2tetris::characters::character_bitmaps;
use nand2tetris::hardware::{Word, RAM};
use nand2tetris::maps::CallCounts;
use nand2tetris::os::{os_function_of, OsFunction, OS};
use nand2tetris::vm::{PopSegment, RunState};

fn run_state() -> RunState {
    let mut instance = RunState {
        current_file_index: 0,
        current_command_index: 0,
        ram: RAM::default(),
        os: OS::default(),
        call_stack: vec![],
        breakpoints: vec![],
        func_stats: CallCounts::new(),
    };
    instance.ram.contents[2] = 100;
    instance
}

fn set_args(run_state: &mut RunState, args: &[Word]) {
    for (i, a) in args.iter().enumerate() {
        run_state.ram.set(0, PopSegment::Argument, i as Word, *a);
    }
}

#[test]
fn math_functions() {
    let mut rs = run_state();
    set_args(&mut rs, &[-7, 2]);
    assert_eq!(rs.math_divide(), -3);
    assert_eq!(rs.math_multiply(), -14);
    assert_eq!(rs.math_min(), -7);
    assert_eq!(rs.math_max(), 2);
    assert_eq!(rs.math_abs(), 7);
    set_args(&mut rs, &[17]);
    assert_eq!(rs.math_sqrt(), 4);
    set_args(&mut rs, &[32767]);
    assert_eq!(rs.math_sqrt(), 181);
    set_args(&mut rs, &[0]);
    assert_eq!(rs.math_sqrt(), 0);
}

#[test]
fn alloc_then_free_gives_back_the_heap() {
    let mut rs = run_state();
    set_args(&mut rs, &[10]);
    let first = rs.memory_alloc();
    assert_eq!(first, 0x0800);
    set_args(&mut rs, &[first]);
    assert_eq!(rs.memory_dealloc(), 0);
    set_args(&mut rs, &[10]);
    assert_eq!(rs.memory_alloc(), 0x0800);
}

#[test]
fn alloc_takes_the_lowest_hole() {
    let mut rs = run_state();
    set_args(&mut rs, &[10]);
    let a = rs.memory_alloc();
    let b = rs.memory_alloc();
    let c = rs.memory_alloc();
    assert_eq!((a, b, c), (0x0800, 0x080A, 0x0814));
    set_args(&mut rs, &[a]);
    rs.memory_dealloc();
    set_args(&mut rs, &[4]);
    assert_eq!(rs.memory_alloc(), 0x0800);
    set_args(&mut rs, &[7]);
    assert_eq!(rs.memory_alloc(), 0x081E);
}

#[test]
fn string_set_int_negative() {
    let mut rs = run_state();
    set_args(&mut rs, &[6]);
    let s = rs.string_new();
    set_args(&mut rs, &[s, -42]);
    assert_eq!(rs.string_set_int(), 0);
    set_args(&mut rs, &[s]);
    assert_eq!(rs.string_length(), 3);
    assert_eq!(rs.string_int_value(), -42);
    assert_eq!(rs.string_erase_last_char(), 0);
    assert_eq!(rs.string_int_value(), -4);
}

#[test]
fn string_constants() {
    let mut rs = run_state();
    assert_eq!(rs.string_backspace(), 129);
    assert_eq!(rs.string_double_quote(), 34);
    assert_eq!(rs.string_new_line(), 128);
}

#[test]
fn peek_poke_and_keyboard() {
    let mut rs = run_state();
    set_args(&mut rs, &[3000, 77]);
    assert_eq!(rs.memory_poke(), 0);
    set_args(&mut rs, &[3000]);
    assert_eq!(rs.memory_peek(), 77);
    rs.ram.set_keyboard(65);
    assert_eq!(rs.keyboard_key_pressed(), 65);
}

#[test]
fn draw_line_walks_bresenham() {
    let mut rs = run_state();
    set_args(&mut rs, &[0, 0, 3, 1]);
    assert_eq!(rs.screen_draw_line(), 0);
    assert_eq!(rs.ram.contents[16384], 0b11);
    assert_eq!(rs.ram.contents[16384 + 32], 0b1100);
    set_args(&mut rs, &[3, 1, 0, 0]);
    rs.screen_clear_screen();
    rs.screen_draw_line();
    assert_eq!(rs.ram.contents[16384] | rs.ram.contents[16384 + 32], 0b1111);
}

#[test]
fn draw_rectangle_leaves_out_its_last_row() {
    let mut rs = run_state();
    set_args(&mut rs, &[0, 0, 2, 1]);
    rs.screen_draw_rectangle();
    assert_eq!(rs.ram.contents[16384], 0b111);
    assert_eq!(rs.ram.contents[16384 + 32], 0);
}

#[test]
fn draw_circle_and_colors() {
    let mut rs = run_state();
    set_args(&mut rs, &[10, 10, 1]);
    rs.screen_draw_circle();
    assert_eq!(rs.ram.contents[16384 + 9 * 32], 1 << 10);
    assert_eq!(rs.ram.contents[16384 + 10 * 32], 0b111 << 9);
    assert_eq!(rs.ram.contents[16384 + 11 * 32], 1 << 10);
    set_args(&mut rs, &[0]);
    rs.screen_set_color();
    set_args(&mut rs, &[10, 10]);
    rs.screen_draw_pixel();
    assert_eq!(rs.ram.contents[16384 + 10 * 32], 0b101 << 9);
    rs.screen_clear_screen();
    assert!(rs.ram.contents[16384..24576].iter().all(|w| *w == 0));
}

#[test]
fn print_char_draws_its_glyph_and_moves_on() {
    let mut rs = run_state();
    set_args(&mut rs, &[65]);
    rs.output_print_char();
    rs.output_print_char();
    let bitmap = character_bitmaps(65);
    for (i, row) in bitmap.iter().enumerate() {
        let word = rs.ram.contents[16384 + 32 + i * 32];
        assert_eq!(word & 0xFF, *row);
        assert_eq!((word >> 8) & 0xFF, *row);
    }
}

#[test]
fn print_int_and_cursor_moves() {
    let mut rs = run_state();
    set_args(&mut rs, &[-12]);
    rs.output_print_int();
    let minus = character_bitmaps(45);
    assert_eq!(rs.ram.contents[16384 + 32 + 5 * 32] & 0xFF, minus[5]);
    set_args(&mut rs, &[2, 5]);
    assert_eq!(rs.output_move_cursor(), 0);
    rs.output_backspace();
    rs.output_println();
    set_args(&mut rs, &[0, 0]);
    assert_eq!(rs.output_move_cursor(), 0);
}

#[test]
fn os_table_and_call() {
    assert_eq!(os_function_of("Math.multiply"), Some(OsFunction::MathMultiply));
    assert_eq!(os_function_of("String.dispose"), Some(OsFunction::MemoryDealloc));
    assert_eq!(os_function_of("Sys.error"), Some(OsFunction::SysError));
    assert_eq!(os_function_of("Main.main"), None);

    let mut rs = run_state();
    rs.ram.contents[0] = 300;
    set_args(&mut rs, &[6, 7]);
    assert!(!rs.call_os("Main.main"));
    assert_eq!(rs.ram.contents[0], 300);
    assert!(rs.call_os("Math.multiply"));
    assert_eq!(rs.ram.contents[300], 42);
    assert_eq!(rs.ram.contents[0], 301);
}

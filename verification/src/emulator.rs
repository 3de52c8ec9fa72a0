use vstd::prelude::*;

use crate::hardware::{hack_words, run_result, BreakpointVar, Hardware, Instruction, UWord, Word, MEM_SIZE};
use crate::hardware_parse::{assemble_spec, instruction_bits, parse_program};
use crate::hardware;
use crate::vm;
use crate::text::str_chars;
use crate::vm::{load_program, sources_files, sources_ok, start_file, vm_run, vm_start, VM};

verus! {

#[derive(Clone, Copy, Debug, PartialEq, Eq, Structural)]
pub enum UIStyle {
    Hardware,
    VM,
}

#[derive(Clone, Copy, Debug, PartialEq, Eq, Structural)]
pub enum CommonAction {
    StepClicked,
    RunClicked,
    PauseClicked,
    ResetClicked,
    BreakpointsClicked,
    BreakpointsClosed,
    SpeedSliderMoved(u64),
}

/// A breakpoint of either machine.
#[derive(Clone, Debug, PartialEq, Eq)]
pub enum Breakpoint {
    Hardware(hardware::Breakpoint),
    VM(vm::Breakpoint),
}

#[derive(Clone, Debug, PartialEq, Eq)]
pub enum BreakpointAction {
    AddClicked,
    BreakpointChanged(Breakpoint),
    RemoveClicked(usize),
}

/// What the emulator shows and does whichever machine it runs.
pub struct SharedState {
    pub desired_steps_per_second: u64,
    pub run_started: bool,
    pub scroll_once: bool,
    pub breakpoints_open: bool,
}

impl Default for SharedState {
    fn default() -> (r: Self)
        ensures
            r.desired_steps_per_second == 500000,
            !r.run_started,
            r.scroll_once,
            !r.breakpoints_open,
    {
        SharedState {
            desired_steps_per_second: 500000,
            run_started: false,
            scroll_once: true,
            breakpoints_open: false,
        }
    }
}

/// A machine the emulator can run, reset and feed keys.
pub trait CommonState: Sized {
    /// Running `step_count` steps cannot fail.
    spec fn can_run(&self, step_count: u64) -> bool;

    /// `self` is `before` after `step_count` steps, which stopped at a breakpoint if `hit`.
    spec fn ran(&self, before: &Self, step_count: u64, hit: bool) -> bool;

    /// The keyboard word can be set.
    spec fn can_set_keyboard(&self) -> bool;

    /// `self` is `before` with the keyboard word set to `value`.
    spec fn keyed(&self, before: &Self, value: Word) -> bool;

    /// Starting over cannot fail.
    spec fn can_reset(&self) -> bool;

    /// `self` is `before` started over.
    spec fn restarted(&self, before: &Self) -> bool;

    /// Runs `step_count` steps; true where a breakpoint stopped the run.
    fn run(&mut self, step_count: u64) -> (hit: bool)
        requires
            old(self).can_run(step_count),
        ensures
            final(self).ran(old(self), step_count, hit),
    ;

    /// Sets the keyboard word.
    fn set_keyboard(&mut self, value: Word)
        requires
            old(self).can_set_keyboard(),
        ensures
            final(self).keyed(old(self), value),
    ;

    /// Starts the program over.
    fn reset(&mut self)
        requires
            old(self).can_reset(),
        ensures
            final(self).restarted(old(self)),
    ;
}

/// The shared state after a common action.
pub open spec fn common_reduced(before: SharedState, after: SharedState, action: CommonAction) -> bool {
    match action {
        CommonAction::StepClicked => after == before,
        CommonAction::RunClicked => after == SharedState { run_started: true, ..before },
        CommonAction::PauseClicked => after == SharedState { run_started: false, ..before },
        CommonAction::ResetClicked => after == SharedState { run_started: false, ..before },
        CommonAction::BreakpointsClicked => after == SharedState { breakpoints_open: !before.breakpoints_open, ..before },
        CommonAction::BreakpointsClosed => after == SharedState { breakpoints_open: false, ..before },
        CommonAction::SpeedSliderMoved(v) => after == SharedState { desired_steps_per_second: v, ..before },
    }
}

/// Applies a common action: run, pause, reset, show or hide the breakpoints, set the speed.
pub fn reduce_common<S: CommonState>(state: &mut S, shared_state: &mut SharedState, action: &CommonAction)
    requires
        *action == CommonAction::ResetClicked ==> old(state).can_reset(),
    ensures
        common_reduced(*old(shared_state), *final(shared_state), *action),
        *action == CommonAction::ResetClicked ==> final(state).restarted(old(state)),
        *action != CommonAction::ResetClicked ==> *final(state) == *old(state),
{
    match action {
        CommonAction::StepClicked => {},
        CommonAction::RunClicked => {
            shared_state.run_started = true;
        },
        CommonAction::PauseClicked => {
            shared_state.run_started = false;
        },
        CommonAction::ResetClicked => {
            state.reset();
            shared_state.run_started = false;
        },
        CommonAction::BreakpointsClicked => {
            shared_state.breakpoints_open = !shared_state.breakpoints_open;
        },
        CommonAction::BreakpointsClosed => {
            shared_state.breakpoints_open = false;
        },
        CommonAction::SpeedSliderMoved(new_value) => {
            shared_state.desired_steps_per_second = *new_value;
        },
    }
}

/// The keys the emulator reads, with the keys it does not tell apart as `Other`.
#[derive(Clone, Copy, Debug, PartialEq, Eq, Structural)]
pub enum Key {
    ArrowDown,
    ArrowLeft,
    ArrowRight,
    ArrowUp,
    Escape,
    Tab,
    Backspace,
    Enter,
    Space,
    Insert,
    Delete,
    Home,
    End,
    PageUp,
    PageDown,
    F1,
    F2,
    F3,
    F4,
    F5,
    F6,
    F7,
    F8,
    F9,
    F10,
    F11,
    F12,
    Num0,
    Num1,
    Num2,
    Num3,
    Num4,
    Num5,
    Num6,
    Num7,
    Num8,
    Num9,
    A,
    B,
    C,
    D,
    E,
    F,
    G,
    H,
    I,
    J,
    K,
    L,
    M,
    N,
    O,
    P,
    Q,
    R,
    S,
    T,
    U,
    V,
    W,
    X,
    Y,
    Z,
    Other,
}

/// The Hack keyboard code of a key, with letters upper case.
pub open spec fn key_code(key: Key) -> Word {
    match key {
        Key::ArrowDown => 133,
        Key::ArrowLeft => 130,
        Key::ArrowRight => 132,
        Key::ArrowUp => 131,
        Key::Escape => 140,
        Key::Tab => 0,
        Key::Backspace => 129,
        Key::Enter => 128,
        Key::Space => 32,
        Key::Insert => 138,
        Key::Delete => 139,
        Key::Home => 134,
        Key::End => 135,
        Key::PageUp => 136,
        Key::PageDown => 137,
        Key::F1 => 141,
        Key::F2 => 142,
        Key::F3 => 143,
        Key::F4 => 144,
        Key::F5 => 145,
        Key::F6 => 146,
        Key::F7 => 147,
        Key::F8 => 148,
        Key::F9 => 149,
        Key::F10 => 150,
        Key::F11 => 151,
        Key::F12 => 152,
        Key::Num0 => 48,
        Key::Num1 => 49,
        Key::Num2 => 50,
        Key::Num3 => 51,
        Key::Num4 => 52,
        Key::Num5 => 53,
        Key::Num6 => 54,
        Key::Num7 => 55,
        Key::Num8 => 56,
        Key::Num9 => 57,
        Key::A => 65,
        Key::B => 66,
        Key::C => 67,
        Key::D => 68,
        Key::E => 69,
        Key::F => 70,
        Key::G => 71,
        Key::H => 72,
        Key::I => 73,
        Key::J => 74,
        Key::K => 75,
        Key::L => 76,
        Key::M => 77,
        Key::N => 78,
        Key::O => 79,
        Key::P => 80,
        Key::Q => 81,
        Key::R => 82,
        Key::S => 83,
        Key::T => 84,
        Key::U => 85,
        Key::V => 86,
        Key::W => 87,
        Key::X => 88,
        Key::Y => 89,
        Key::Z => 90,
        Key::Other => 0,
    }
}

/// The keyboard word for the key held down: its code, letters lower case without shift,
/// 0 for no key or a key without a code.
pub open spec fn keyboard_value(key: Option<Key>, shift: bool) -> Word {
    let code = match key {
        Some(k) => key_code(k),
        None => 0,
    };
    if 65 <= code <= 90 && !shift { (code + 32) as Word } else { code }
}

/// The keyboard word for the key held down (tab is not supported).
pub fn keyboard_value_from_key(key: Option<Key>, shift: bool) -> (r: Word)
    requires
        key != Some(Key::Tab),
    ensures
        r == keyboard_value(key, shift),
{
    let mut value: Word = match key {
        Some(Key::ArrowDown) => 133,
        Some(Key::ArrowLeft) => 130,
        Some(Key::ArrowRight) => 132,
        Some(Key::ArrowUp) => 131,
        Some(Key::Escape) => 140,
        Some(Key::Backspace) => 129,
        Some(Key::Enter) => 128,
        Some(Key::Space) => 32,
        Some(Key::Insert) => 138,
        Some(Key::Delete) => 139,
        Some(Key::Home) => 134,
        Some(Key::End) => 135,
        Some(Key::PageUp) => 136,
        Some(Key::PageDown) => 137,
        Some(Key::F1) => 141,
        Some(Key::F2) => 142,
        Some(Key::F3) => 143,
        Some(Key::F4) => 144,
        Some(Key::F5) => 145,
        Some(Key::F6) => 146,
        Some(Key::F7) => 147,
        Some(Key::F8) => 148,
        Some(Key::F9) => 149,
        Some(Key::F10) => 150,
        Some(Key::F11) => 151,
        Some(Key::F12) => 152,
        Some(Key::Num0) => 48,
        Some(Key::Num1) => 49,
        Some(Key::Num2) => 50,
        Some(Key::Num3) => 51,
        Some(Key::Num4) => 52,
        Some(Key::Num5) => 53,
        Some(Key::Num6) => 54,
        Some(Key::Num7) => 55,
        Some(Key::Num8) => 56,
        Some(Key::Num9) => 57,
        Some(Key::A) => 65,
        Some(Key::B) => 66,
        Some(Key::C) => 67,
        Some(Key::D) => 68,
        Some(Key::E) => 69,
        Some(Key::F) => 70,
        Some(Key::G) => 71,
        Some(Key::H) => 72,
        Some(Key::I) => 73,
        Some(Key::J) => 74,
        Some(Key::K) => 75,
        Some(Key::L) => 76,
        Some(Key::M) => 77,
        Some(Key::N) => 78,
        Some(Key::O) => 79,
        Some(Key::P) => 80,
        Some(Key::Q) => 81,
        Some(Key::R) => 82,
        Some(Key::S) => 83,
        Some(Key::T) => 84,
        Some(Key::U) => 85,
        Some(Key::V) => 86,
        Some(Key::W) => 87,
        Some(Key::X) => 88,
        Some(Key::Y) => 89,
        Some(Key::Z) => 90,
        _ => 0,
    };
    if 65 <= value && value <= 90 && !shift {
        value = value + 32;
    }
    value
}

/// Sets the keyboard word from the key held down and runs `steps_to_run` steps; false
/// where a breakpoint stopped the run (the run goes on otherwise).
pub fn run_steps<S: CommonState>(state: &mut S, steps_to_run: u64, key_down: Option<Key>, shift: bool) -> (go_on: bool)
    requires
        key_down != Some(Key::Tab),
        steps_to_run > 0 ==> old(state).can_set_keyboard(),
        steps_to_run > 0 ==> forall|s: S| #[trigger] s.keyed(old(state), keyboard_value(key_down, shift)) ==> s.can_run(steps_to_run),
    ensures
        steps_to_run == 0 ==> go_on && *final(state) == *old(state),
        steps_to_run > 0 ==> exists|s: S| #[trigger] s.keyed(old(state), keyboard_value(key_down, shift)) && final(state).ran(&s, steps_to_run, !go_on),
{
    if steps_to_run > 0 {
        let keyboard_value = keyboard_value_from_key(key_down, shift);
        state.set_keyboard(keyboard_value);
        let ghost keyed = *state;
        if state.run(steps_to_run) {
            return false;
        }
    }
    true
}

/// What a drop of files opens: one assembly file runs on the Hack computer, VM files (all
/// of them) run on the VM, anything else opens nothing.
#[derive(Clone, Copy, Debug, PartialEq, Eq, Structural)]
pub enum DroppedProgram {
    Assembly,
    VmFiles,
    Unknown,
}

/// Whether a name ends with `suffix`.
pub open spec fn name_ends_with(name: Seq<char>, suffix: Seq<char>) -> bool {
    name.len() >= suffix.len() && name.subrange(name.len() - suffix.len(), name.len() as int) == suffix
}

/// What the dropped files with these names open.
pub open spec fn dropped_program_of(names: Seq<Seq<char>>) -> DroppedProgram {
    if names.len() == 1 && name_ends_with(names[0], ".asm"@) {
        DroppedProgram::Assembly
    } else if forall|k: int| 0 <= k < names.len() ==> #[trigger] name_ends_with(names[k], ".vm"@) {
        DroppedProgram::VmFiles
    } else {
        DroppedProgram::Unknown
    }
}

/// The names of files, by their characters.
pub open spec fn names_of(names: Seq<String>) -> Seq<Seq<char>> {
    names.map_values(|n: String| n@)
}

fn ends_with(name: &str, suffix: &str) -> (r: bool)
    ensures
        r == name_ends_with(name@, suffix@),
{
    let cs = str_chars(name);
    let ss = str_chars(suffix);
    if cs.len() < ss.len() {
        return false;
    }
    let start = cs.len() - ss.len();
    let mut x: usize = start;
    while x < cs.len()
        invariant
            cs@ == name@,
            ss@ == suffix@,
            ss@.len() <= cs@.len(),
            start == cs@.len() - ss@.len(),
            start <= x <= cs@.len(),
            forall|y: int| start <= y < x ==> cs@[y] == ss@[y - start],
        decreases cs@.len() - x,
    {
        if cs[x] != ss[x - start] {
            assert(cs@.subrange(start as int, cs@.len() as int)[x - start] != ss@[x - start]);
            return false;
        }
        x = x + 1;
    }
    assert(cs@.subrange(start as int, cs@.len() as int) =~= ss@);
    true
}

/// Decides what a drop of files with these names opens.
pub fn dropped_program(names: &[String]) -> (r: DroppedProgram)
    ensures
        r == dropped_program_of(names_of(names@)),
{
    let ghost ns = names_of(names@);
    if names.len() == 1 && ends_with(names[0].as_str(), ".asm") {
        return DroppedProgram::Assembly;
    }
    assert(names@.len() == 1 ==> ns[0] == names@[0]@);
    let mut k: usize = 0;
    while k < names.len()
        invariant
            ns == names_of(names@),
            !(names@.len() == 1 && name_ends_with(ns[0], ".asm"@)),
            k <= names@.len(),
            forall|x: int| 0 <= x < k ==> #[trigger] name_ends_with(ns[x], ".vm"@),
        decreases names@.len() - k,
    {
        assert(ns[k as int] == names@[k as int]@);
        if !ends_with(names[k].as_str(), ".vm") {
            assert(!name_ends_with(ns[k as int], ".vm"@));
            return DroppedProgram::Unknown;
        }
        k = k + 1;
    }
    DroppedProgram::VmFiles
}

/// The emulator's state while it runs a Hack program: the breakpoint being edited and
/// the computer.
pub struct HardwareState {
    pub selected_breakpoint: hardware::Breakpoint,
    pub hardware: Hardware,
}

/// The breakpoint the editor starts with: A equal to 0.
pub open spec fn first_hardware_breakpoint() -> hardware::Breakpoint {
    hardware::Breakpoint { var: BreakpointVar::A, value: 0 }
}

impl HardwareState {
    /// A state running the assembled program of an assembly text.
    pub fn from_file_contents(contents: &str) -> (r: Self)
        requires
            parse_program(contents@) matches Some(items) && assemble_spec(items) matches Some(w)
                && w.len() <= MEM_SIZE,
        ensures
            r.selected_breakpoint == first_hardware_breakpoint(),
            r.hardware.a == 0 && r.hardware.d == 0 && r.hardware.pc == 0,
            instruction_bits(r.hardware.rom@) == assemble_spec(parse_program(contents@).unwrap()).unwrap()
                + Seq::new(
                (MEM_SIZE - assemble_spec(parse_program(contents@).unwrap()).unwrap().len()) as nat,
                |i: int| 0 as UWord,
            ),
            r.hardware.ram@ == Seq::new(MEM_SIZE as nat, |i: int| 0 as Word),
            r.hardware.breakpoints@.len() == 0,
    {
        HardwareState {
            selected_breakpoint: hardware::Breakpoint { var: BreakpointVar::A, value: 0 },
            hardware: Hardware::from_file_contents(contents),
        }
    }

    /// A state running the program of a text of binary instruction words.
    pub fn from_hack_file_contents(contents: &str) -> (r: Self)
        requires
            hack_words(contents@) matches Some(w) && w.len() <= MEM_SIZE,
        ensures
            r.selected_breakpoint == first_hardware_breakpoint(),
            r.hardware.a == 0 && r.hardware.d == 0 && r.hardware.pc == 0,
            instruction_bits(r.hardware.rom@) == hack_words(contents@).unwrap() + Seq::new(
                (MEM_SIZE - hack_words(contents@).unwrap().len()) as nat,
                |i: int| 0 as UWord,
            ),
            r.hardware.ram@ == Seq::new(MEM_SIZE as nat, |i: int| 0 as Word),
            r.hardware.breakpoints@.len() == 0,
    {
        HardwareState {
            selected_breakpoint: hardware::Breakpoint { var: BreakpointVar::A, value: 0 },
            hardware: Hardware::from_hack_file_contents(contents),
        }
    }
}


/// The program a fresh hardware state runs.
pub open spec fn demo_program() -> Seq<UWord> {
    seq![
        16384, 60432, 16, 58248, 17, 60040, 24576, 64528, 12, 58114, 17, 61064, 17, 64528, 16,
        65000, 58120, 24576, 60560, 16, 62672, 4, 58115, 16384, 60432, 16, 58248, 4, 60039,
    ]
}

impl Default for HardwareState {
    fn default() -> (r: Self)
        ensures
            r.selected_breakpoint == first_hardware_breakpoint(),
            r.hardware.a == 0 && r.hardware.d == 0 && r.hardware.pc == 0,
            instruction_bits(r.hardware.rom@) == demo_program() + Seq::new(
                (MEM_SIZE - 29) as nat,
                |i: int| 0 as UWord,
            ),
            r.hardware.ram@ == Seq::new(MEM_SIZE as nat, |i: int| 0 as Word),
            r.hardware.breakpoints@.len() == 0,
    {
        let mut hardware = Hardware::default();
        let program: [UWord; 29] = [
            16384, 60432, 16, 58248, 17, 60040, 24576, 64528, 12, 58114, 17, 61064, 17, 64528, 16,
            65000, 58120, 24576, 60560, 16, 62672, 4, 58115, 16384, 60432, 16, 58248, 4, 60039,
        ];
        assert(program@ =~= demo_program());
        let mut instructions: Vec<Instruction> = Vec::new();
        let mut i: usize = 0;
        while i < 29
            invariant
                i <= 29,
                program@ == demo_program(),
                instructions@.len() == i,
                forall|j: int| 0 <= j < i ==> #[trigger] instructions@[j].bits() == program@[j],
            decreases 29 - i,
        {
            instructions.push(Instruction::new(program[i]));
            i = i + 1;
        }
        hardware.load_program(instructions.as_slice());
        let r = HardwareState {
            selected_breakpoint: hardware::Breakpoint { var: BreakpointVar::A, value: 0 },
            hardware,
        };
        proof {
            let zeros = Seq::new((MEM_SIZE - 29) as nat, |i: int| 0 as UWord);
            assert forall|j: int| 0 <= j < MEM_SIZE implies #[trigger] instruction_bits(r.hardware.rom@)[j] == (demo_program() + zeros)[j] by {
                if j >= 29 {
                    crate::hardware::lemma_zero_instruction_bits();
                }
            }
            assert(instruction_bits(r.hardware.rom@) =~= demo_program() + zeros);
        }
        r
    }
}

impl CommonState for HardwareState {
    open spec fn can_run(&self, step_count: u64) -> bool {
        run_result(self.hardware@, step_count as nat) is Some
    }

    open spec fn ran(&self, before: &Self, step_count: u64, hit: bool) -> bool {
        &&& run_result(before.hardware@, step_count as nat) == Some((self.hardware@, hit))
        &&& self.selected_breakpoint == before.selected_breakpoint
    }

    open spec fn can_set_keyboard(&self) -> bool {
        self.hardware.ram.wf()
    }

    open spec fn keyed(&self, before: &Self, value: Word) -> bool {
        &&& self.hardware@ == (hardware::HackState { ram: before.hardware@.ram.update(24576, value), ..before.hardware@ })
        &&& self.selected_breakpoint == before.selected_breakpoint
    }

    open spec fn can_reset(&self) -> bool {
        true
    }

    open spec fn restarted(&self, before: &Self) -> bool {
        &&& self.hardware.a == 0 && self.hardware.d == 0 && self.hardware.pc == 0
        &&& self.hardware.rom@ == before.hardware.rom@
        &&& self.hardware.breakpoints@ == before.hardware.breakpoints@
        &&& self.hardware.ram@ == Seq::new(MEM_SIZE as nat, |i: int| 0 as Word)
        &&& self.selected_breakpoint == before.selected_breakpoint
    }

    fn run(&mut self, step_count: u64) -> (hit: bool) {
        self.hardware.run(step_count)
    }

    fn set_keyboard(&mut self, value: Word) {
        self.hardware.ram.set_keyboard(value);
    }

    fn reset(&mut self) {
        self.hardware.reset();
    }
}

/// Applies a breakpoint action while a Hack program runs: only a change of the edited
/// breakpoint takes effect.
pub fn reduce_breakpoint_hardware(hardware_state: &mut HardwareState, action: &BreakpointAction)
    requires
        !(*action matches BreakpointAction::BreakpointChanged(Breakpoint::VM(_))),
    ensures
        final(hardware_state).hardware == old(hardware_state).hardware,
        final(hardware_state).selected_breakpoint == (match *action {
            BreakpointAction::BreakpointChanged(Breakpoint::Hardware(b)) => b,
            _ => old(hardware_state).selected_breakpoint,
        }),
{
    match action {
        BreakpointAction::AddClicked => {},
        BreakpointAction::RemoveClicked(_) => {},
        BreakpointAction::BreakpointChanged(Breakpoint::Hardware(new_breakpoint)) => {
            hardware_state.selected_breakpoint = *new_breakpoint;
        },
        BreakpointAction::BreakpointChanged(Breakpoint::VM(_)) => {},
    }
}

/// The emulator's state while it runs VM files: the VM, the file shown and the breakpoint
/// being edited.
pub struct VMState {
    pub vm: VM,
    pub selected_file: String,
    pub selected_breakpoint: vm::Breakpoint,
}

impl VMState {
    /// A state running VM files, each given by its name and text, showing the file `Sys`.
    pub fn from_file_contents(file_contents: Vec<(String, String)>) -> (r: Self)
        requires
            sources_ok(file_contents@),
            load_program(sources_files(file_contents@)) is Some,
            start_file(load_program(sources_files(file_contents@)).unwrap())
                < load_program(sources_files(file_contents@)).unwrap().files.len(),
        ensures
            r.vm.program@ == load_program(sources_files(file_contents@)).unwrap(),
            r.vm.run_state@ == vm_start(r.vm.program@),
            r.vm.run_state.wf(),
            r.selected_file@ == "Sys"@,
            r.selected_breakpoint == vm::Breakpoint::SP(0),
    {
        let vm = VM::from_file_contents(file_contents);
        let selected_file = "Sys".to_owned();
        let selected_breakpoint = vm::Breakpoint::SP(0);
        VMState { vm, selected_file, selected_breakpoint }
    }
}

impl CommonState for VMState {
    open spec fn can_run(&self, step_count: u64) -> bool {
        self.vm.run_state.wf() && vm_run(self.vm.program@, self.vm.run_state@, step_count as nat) is Some
    }

    open spec fn ran(&self, before: &Self, step_count: u64, hit: bool) -> bool {
        &&& !hit
        &&& self.vm.run_state@ == vm_run(before.vm.program@, before.vm.run_state@, step_count as nat).unwrap()
        &&& self.vm.program@ == before.vm.program@
        &&& self.selected_file == before.selected_file
        &&& self.selected_breakpoint == before.selected_breakpoint
    }

    open spec fn can_set_keyboard(&self) -> bool {
        self.vm.run_state.ram.wf()
    }

    open spec fn keyed(&self, before: &Self, value: Word) -> bool {
        &&& self.vm.run_state@ == (vm::RunSpec { ram: before.vm.run_state@.ram.update(24576, value), ..before.vm.run_state@ })
        &&& self.vm.program@ == before.vm.program@
        &&& self.selected_file == before.selected_file
        &&& self.selected_breakpoint == before.selected_breakpoint
    }

    open spec fn can_reset(&self) -> bool {
        start_file(self.vm.program@) < self.vm.program@.files.len()
    }

    open spec fn restarted(&self, before: &Self) -> bool {
        &&& self.vm.program@ == before.vm.program@
        &&& self.vm.run_state@ == vm_start(before.vm.program@)
        &&& self.selected_file == before.selected_file
        &&& self.selected_breakpoint == before.selected_breakpoint
    }

    fn run(&mut self, step_count: u64) -> (hit: bool) {
        self.vm.run(step_count);
        false
    }

    fn set_keyboard(&mut self, value: Word) {
        self.vm.run_state.ram.set_keyboard(value);
    }

    fn reset(&mut self) {
        self.vm.reset();
    }
}

/// Shows another file.
pub fn reduce_vm_file_selected(vm_state: &mut VMState, selected_file: &str)
    ensures
        final(vm_state).selected_file@ == selected_file@,
        final(vm_state).vm == old(vm_state).vm,
        final(vm_state).selected_breakpoint == old(vm_state).selected_breakpoint,
{
    vm_state.selected_file = selected_file.to_owned();
}

/// Applies a breakpoint action while VM files run: add the edited breakpoint, remove one,
/// or change the edited one.
pub fn reduce_breakpoint_vm(vm_state: &mut VMState, action: &BreakpointAction)
    requires
        !(*action matches BreakpointAction::BreakpointChanged(Breakpoint::Hardware(_))),
        *action matches BreakpointAction::RemoveClicked(i) ==> i < old(vm_state).vm.run_state.breakpoints@.len(),
    ensures
        final(vm_state).vm.program@ == old(vm_state).vm.program@,
        final(vm_state).selected_file == old(vm_state).selected_file,
        match *action {
            BreakpointAction::AddClicked => final(vm_state).vm.run_state.breakpoints@
                == old(vm_state).vm.run_state.breakpoints@.push(old(vm_state).selected_breakpoint)
                && final(vm_state).selected_breakpoint == old(vm_state).selected_breakpoint,
            BreakpointAction::RemoveClicked(i) => final(vm_state).vm.run_state.breakpoints@
                == old(vm_state).vm.run_state.breakpoints@.remove(i as int)
                && final(vm_state).selected_breakpoint == old(vm_state).selected_breakpoint,
            BreakpointAction::BreakpointChanged(Breakpoint::VM(b)) => final(vm_state).selected_breakpoint == b
                && final(vm_state).vm.run_state.breakpoints@ == old(vm_state).vm.run_state.breakpoints@,
            _ => true,
        },
{
    match action {
        BreakpointAction::AddClicked => {
            let b = vm_state.selected_breakpoint.duplicate();
            vm_state.vm.add_breakpoint(&b);
        },
        BreakpointAction::RemoveClicked(row_index) => {
            vm_state.vm.remove_breakpoint(*row_index);
        },
        BreakpointAction::BreakpointChanged(Breakpoint::VM(new_breakpoint)) => {
            vm_state.selected_breakpoint = new_breakpoint.duplicate();
        },
        BreakpointAction::BreakpointChanged(Breakpoint::Hardware(_)) => {},
    }
}

/// The keyboard word of each key is its code in the Hack character set: newline 128,
/// backspace 129, the arrows left, up, right and down 130 to 133, home 134, end 135, page
/// up 136, page down 137, insert 138, delete 139, escape 140, F1 to F12 141 to 152; space
/// and the digits as their characters; a letter as its capital with shift and as its small
/// letter without; and 0 for no key or a key without a code.
pub proof fn lemma_keyboard_codes(shift: bool)
    ensures
        keyboard_value(None, shift) == 0,
        keyboard_value(Some(Key::Other), shift) == 0,
        keyboard_value(Some(Key::Enter), shift) == 128,
        keyboard_value(Some(Key::Backspace), shift) == 129,
        keyboard_value(Some(Key::ArrowLeft), shift) == 130,
        keyboard_value(Some(Key::ArrowUp), shift) == 131,
        keyboard_value(Some(Key::ArrowRight), shift) == 132,
        keyboard_value(Some(Key::ArrowDown), shift) == 133,
        keyboard_value(Some(Key::Home), shift) == 134,
        keyboard_value(Some(Key::End), shift) == 135,
        keyboard_value(Some(Key::PageUp), shift) == 136,
        keyboard_value(Some(Key::PageDown), shift) == 137,
        keyboard_value(Some(Key::Insert), shift) == 138,
        keyboard_value(Some(Key::Delete), shift) == 139,
        keyboard_value(Some(Key::Escape), shift) == 140,
        keyboard_value(Some(Key::F1), shift) == 141,
        keyboard_value(Some(Key::F2), shift) == 142,
        keyboard_value(Some(Key::F3), shift) == 143,
        keyboard_value(Some(Key::F4), shift) == 144,
        keyboard_value(Some(Key::F5), shift) == 145,
        keyboard_value(Some(Key::F6), shift) == 146,
        keyboard_value(Some(Key::F7), shift) == 147,
        keyboard_value(Some(Key::F8), shift) == 148,
        keyboard_value(Some(Key::F9), shift) == 149,
        keyboard_value(Some(Key::F10), shift) == 150,
        keyboard_value(Some(Key::F11), shift) == 151,
        keyboard_value(Some(Key::F12), shift) == 152,
        keyboard_value(Some(Key::Space), shift) == ' ' as Word,
        keyboard_value(Some(Key::Num0), shift) == '0' as Word,
        keyboard_value(Some(Key::Num1), shift) == '1' as Word,
        keyboard_value(Some(Key::Num2), shift) == '2' as Word,
        keyboard_value(Some(Key::Num3), shift) == '3' as Word,
        keyboard_value(Some(Key::Num4), shift) == '4' as Word,
        keyboard_value(Some(Key::Num5), shift) == '5' as Word,
        keyboard_value(Some(Key::Num6), shift) == '6' as Word,
        keyboard_value(Some(Key::Num7), shift) == '7' as Word,
        keyboard_value(Some(Key::Num8), shift) == '8' as Word,
        keyboard_value(Some(Key::Num9), shift) == '9' as Word,
        keyboard_value(Some(Key::A), shift) == (if shift { 'A' as Word } else { 'a' as Word }),
        keyboard_value(Some(Key::B), shift) == (if shift { 'B' as Word } else { 'b' as Word }),
        keyboard_value(Some(Key::C), shift) == (if shift { 'C' as Word } else { 'c' as Word }),
        keyboard_value(Some(Key::D), shift) == (if shift { 'D' as Word } else { 'd' as Word }),
        keyboard_value(Some(Key::E), shift) == (if shift { 'E' as Word } else { 'e' as Word }),
        keyboard_value(Some(Key::F), shift) == (if shift { 'F' as Word } else { 'f' as Word }),
        keyboard_value(Some(Key::G), shift) == (if shift { 'G' as Word } else { 'g' as Word }),
        keyboard_value(Some(Key::H), shift) == (if shift { 'H' as Word } else { 'h' as Word }),
        keyboard_value(Some(Key::I), shift) == (if shift { 'I' as Word } else { 'i' as Word }),
        keyboard_value(Some(Key::J), shift) == (if shift { 'J' as Word } else { 'j' as Word }),
        keyboard_value(Some(Key::K), shift) == (if shift { 'K' as Word } else { 'k' as Word }),
        keyboard_value(Some(Key::L), shift) == (if shift { 'L' as Word } else { 'l' as Word }),
        keyboard_value(Some(Key::M), shift) == (if shift { 'M' as Word } else { 'm' as Word }),
        keyboard_value(Some(Key::N), shift) == (if shift { 'N' as Word } else { 'n' as Word }),
        keyboard_value(Some(Key::O), shift) == (if shift { 'O' as Word } else { 'o' as Word }),
        keyboard_value(Some(Key::P), shift) == (if shift { 'P' as Word } else { 'p' as Word }),
        keyboard_value(Some(Key::Q), shift) == (if shift { 'Q' as Word } else { 'q' as Word }),
        keyboard_value(Some(Key::R), shift) == (if shift { 'R' as Word } else { 'r' as Word }),
        keyboard_value(Some(Key::S), shift) == (if shift { 'S' as Word } else { 's' as Word }),
        keyboard_value(Some(Key::T), shift) == (if shift { 'T' as Word } else { 't' as Word }),
        keyboard_value(Some(Key::U), shift) == (if shift { 'U' as Word } else { 'u' as Word }),
        keyboard_value(Some(Key::V), shift) == (if shift { 'V' as Word } else { 'v' as Word }),
        keyboard_value(Some(Key::W), shift) == (if shift { 'W' as Word } else { 'w' as Word }),
        keyboard_value(Some(Key::X), shift) == (if shift { 'X' as Word } else { 'x' as Word }),
        keyboard_value(Some(Key::Y), shift) == (if shift { 'Y' as Word } else { 'y' as Word }),
        keyboard_value(Some(Key::Z), shift) == (if shift { 'Z' as Word } else { 'z' as Word }),
{
}

} // verus!

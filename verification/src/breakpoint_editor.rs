use vstd::prelude::*;

use crate::hardware::{Breakpoint, BreakpointVar, Hardware, HackState, Word};

verus! {

/// The Hack emulator's state while breakpoints are edited: the variable and value of the
/// breakpoint being written, and the computer whose breakpoints they are.
pub struct HardwareState {
    pub selected_breakpoint_var: BreakpointVar,
    pub breakpoint_value: Word,
    pub hardware: Hardware,
}

/// What the breakpoint editor asks for.
#[derive(Clone, Debug, PartialEq, Eq)]
pub enum BreakpointAction {
    AddClicked,
    VariableChanged(BreakpointVar),
    ValueChanged(Word),
    RemoveClicked(usize),
}

/// Applies a breakpoint action: adding appends the breakpoint being written to the
/// computer's breakpoints, removing takes out the one at the row, and a change of the
/// variable or the value changes the breakpoint being written. Nothing else changes.
pub fn reduce_breakpoint_hardware(hardware_state: &mut HardwareState, action: &BreakpointAction)
    requires
        *action matches BreakpointAction::RemoveClicked(row) ==> row < old(hardware_state).hardware.breakpoints@.len(),
    ensures
        final(hardware_state).hardware@ == (match *action {
            BreakpointAction::AddClicked => HackState {
                breakpoints: old(hardware_state).hardware@.breakpoints.push(
                    Breakpoint { var: old(hardware_state).selected_breakpoint_var, value: old(hardware_state).breakpoint_value },
                ),
                ..old(hardware_state).hardware@
            },
            BreakpointAction::RemoveClicked(row) => HackState {
                breakpoints: old(hardware_state).hardware@.breakpoints.remove(row as int),
                ..old(hardware_state).hardware@
            },
            _ => old(hardware_state).hardware@,
        }),
        final(hardware_state).selected_breakpoint_var == (match *action {
            BreakpointAction::VariableChanged(v) => v,
            _ => old(hardware_state).selected_breakpoint_var,
        }),
        final(hardware_state).breakpoint_value == (match *action {
            BreakpointAction::ValueChanged(v) => v,
            _ => old(hardware_state).breakpoint_value,
        }),
{
    match action {
        BreakpointAction::AddClicked => {
            let b = Breakpoint { var: hardware_state.selected_breakpoint_var, value: hardware_state.breakpoint_value };
            hardware_state.hardware.add_breakpoint(&b);
        },
        BreakpointAction::RemoveClicked(row_index) => {
            hardware_state.hardware.remove_breakpoint(*row_index);
        },
        BreakpointAction::VariableChanged(new_var) => {
            hardware_state.selected_breakpoint_var = *new_var;
        },
        BreakpointAction::ValueChanged(new_value) => {
            hardware_state.breakpoint_value = *new_value;
        },
    }
}

} // verus!

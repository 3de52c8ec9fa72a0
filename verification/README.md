# nand2tetris

Tools for the Hack computer and its virtual machine, verified with Verus: an emulator of
the Hack CPU, an assembler, a VM interpreter with a small operating system, parsers for
assembly and VM files, and compilers from Hack machine code and from VM programs to
WebAssembly instruction lists.

## Layout

- `src/hardware.rs` — Hack instructions, RAM, the CPU step and runs with breakpoints;
  the machine's semantics as spec functions (`execute`, `step_result`, `run_result`).
- `src/hardware_parse.rs` — the assembly grammar as spec functions, its parser, and the
  assembler (symbols, labels, variables).
- `src/vm.rs`, `src/vm_parse.rs` — VM commands, program loading, the VM step
  (`vm_step`) and runs; the VM file grammar and its parser.
- `src/os.rs`, `src/characters.rs` — the operating system the VM calls (math, memory,
  strings, screen, output, keyboard) and the font.
- `src/emulator.rs` — the emulator's state machine (actions, breakpoints, stepping).
- `src/breakpoint_editor.rs` — the breakpoint editor of the Hack emulator.
- `src/hack_to_wasm.rs`, `src/vm_to_wasm.rs` — the two compilers; each names the code it
  emits for an instruction or command by a spec function.
- `src/vm_wasm_run.rs` — straight-line WebAssembly semantics for compiled VM code, and
  what the compiled cases do, case by case and over runs of the dispatch loop.
- `src/vm_static_run.rs` — the cases of static dispatch run through the switch over them.
- `src/hack_static_run.rs` — the static layout of a Hack program run through its switch.
- `src/maps.rs`, `src/text.rs`, `src/scan.rs` — hash maps, strings and character scanning.
- `app/main.rs` — a command-line runner for assembly and `.hack` files.
- `tests/` — unit and scenario tests, including interpreters that run the emitted
  WebAssembly instruction lists against the emulator and the VM.

## Laws proved

Among others:

- decoding what `Instruction::create` encodes; a run of `m + n` steps is a run of `m`
  then `n`, for the Hack CPU and for the VM;
- the compiled code of a Hack instruction executes that instruction
  (`lemma_instruction_code_executes`), and rounds of the dispatch loop over the cases run
  a program as the CPU's steps do (`lemma_hack_dispatch_runs_as_cpu`); the static layout
  (blocks of straight-line code between the case starts, the branch table sending each
  PC to its block or its own case) runs a program as the CPU does, a jump going out of
  blocks where its A was known and through the dispatch loop otherwise
  (`lemma_hack_static_runs_as_cpu`);
- the compiled code of a VM command that works on the stack (push, pop, arithmetic and
  logic, label, function) does what the VM step does, with or without values kept on the
  operand stack (`lemma_dynamic_case_steps`, `lemma_command_code_steps`,
  `lemma_drop_code_stores`), and `goto` and `if-goto` jump where the VM jumps
  (`lemma_dynamic_jump_case_steps`);
- a call through a frame and a return, compiled for dynamic dispatch, do what the VM
  step does (`lemma_dynamic_call_case_steps`, `lemma_dynamic_return_case_steps`); the
  compiled code keeps a caller's saved registers as byte addresses, so these laws, and
  those of the stack and jump cases, relate a frame to the VM's RAM with those words
  scaled (`frame_holds_scaled`); `Math.multiply` and `Math.divide`, which the compiled
  code computes in place, give what the VM gives at and below SP
  (`lemma_dynamic_arithmetic_call_case_steps`); and rounds of the dispatch loop run a
  program as the VM's steps do, where each step meets its case law's conditions
  (`lemma_dispatch_runs_as_vm`);
- the cases of static dispatch run through the switch over
  them (falling through, branching out of blocks, or back through the dispatch loop) as
  the VM runs the program's commands: the stack commands, the jumps, a call through a
  frame (which saves the return case and the caller's registers and branches to the
  function's case), a return (which branches to the saved case), and `Math.multiply`,
  `Math.divide`, `Screen.clearScreen`, `Memory.init`, `Memory.deAlloc` and
  `Array.dispose` computed in place (`lemma_static_dispatch_runs_as_vm`, built from
  `lemma_static_jump_steps`, `lemma_static_call_steps`, `lemma_static_return_steps`,
  `lemma_static_arithmetic_call_steps`, `lemma_static_clear_screen_steps`,
  `lemma_static_memory_init_steps` and `lemma_static_dealloc_steps`); the first pass records for the command after a
  call, and for a function declared once, the case that starts there
  (`lemma_call_return_case`, `lemma_function_case`);
- a run stops after the first step that hits a breakpoint
  (`lemma_run_stops_at_first_hit`); setting a pixel reads back
  (`lemma_set_pixel_reads_back`); each loaded file's slice of the program's commands is
  that file's commands (`lemma_loaded_file_commands`);
- the operand-stack depth of compiled VM commands (`lemma_command_code_keeps_stack`);
- reading back the text of a Hack instruction or of a VM command
  (`lemma_instruction_text_parses`, `lemma_command_text_parses`);
- allocating then freeing heap memory gives the heap back; reading back an integer
  written into a string.

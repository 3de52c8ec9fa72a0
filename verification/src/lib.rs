pub mod text;
pub mod hardware;
pub mod maps;
pub mod scan;
pub mod hardware_parse;
pub mod vm;
pub mod os;
pub mod characters;
pub mod vm_parse;
pub mod emulator;
pub mod breakpoint_editor;
pub mod hack_to_wasm;
pub mod vm_to_wasm;
pub mod vm_wasm_run;
pub mod vm_static_run;
pub mod hack_static_run;

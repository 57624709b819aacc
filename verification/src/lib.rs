//! Register and stack allocation for one function body of a native-code
//! compiler backend.
//!
//! Given the variables that are alive, the register table of the target and
//! the upcoming macro-instructions, the planner decides where every variable
//! lives next and produces the assembly text that moves the data there.
pub mod aarch64_mac_os;
pub mod arch;
pub mod data_position;
pub mod macro_instruction;
pub mod register;
pub mod search;
pub mod text;
pub mod variable;
pub mod variable_manager;

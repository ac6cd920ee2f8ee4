//! A versioned environment store for a hardware-description-language
//! interpreter.
//!
//! The interpreter walks a control program built from sequence, parallel,
//! conditional, and loop constructs, and tracks the circuit's named state in a
//! stack of scope frames (the "Smoosher").  Nested control regions push and
//! fold scopes; parallel regions fork the stack into isolated branches and
//! reconcile them again at the join point, detecting races on the same state
//! element.

pub mod ast;
pub mod errors;
pub mod frame;
pub mod passes;
pub mod stk_env;

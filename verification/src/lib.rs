//! An optimizing Brainfuck executor: a fusing compiler to an extended
//! instruction set, a peephole optimizer for common loop idioms, a
//! verified interpreter over that instruction set, and a verified lowerer
//! that turns a source into the abstract operations of a native-code
//! backend's function.

pub mod balance;
pub mod instr;
pub mod jit;
pub mod laws;
pub mod machine;
pub mod model;
pub mod program;

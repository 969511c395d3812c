//! An interpreter for a minimal tape-based esoteric language: program
//! loading with loop-bracket resolution, and a virtual machine that walks
//! the resolved instruction sequence over a tape of wraparound cells.

pub mod cell;
pub mod interp;
pub mod stream;
pub mod types;

pub use cell::CellKind;
pub use interp::RunStatus;
pub use interp::VMError;
pub use interp::VirtualMachine;
pub use stream::InputStream;
pub use stream::OutputStream;
pub use stream::StreamError;
pub use types::Instruction;
pub use types::Program;
pub use types::ProgramError;
pub use types::RawInstruction;

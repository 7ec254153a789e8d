//! Batch-mode gdb helpers: building command invocations with sentinel
//! framing, demultiplexing the combined output, parsing stack-trace lines
//! and process memory mappings, and resolving addresses to modules.

pub mod error;
pub mod frame;
pub mod maps;
pub mod session;
pub mod text;
pub mod trace;

pub use error::Error;
pub use frame::DebugInfo;
pub use frame::StacktraceEntry;
pub use maps::File;
pub use maps::MappedFiles;
pub use maps::MappedFilesExt;
pub use session::ExecType;
pub use session::GdbCommand;
pub use trace::Stacktrace;
pub use trace::StacktraceExt;

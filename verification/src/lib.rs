//! A native library for assembling Protocol-Buffer-style file descriptor
//! sets.
//!
//! Given one or more root schema files, the library locates every file they
//! transitively import through a pluggable [`compiler::SourceTree`], parses
//! each into a structured [`descriptor::FileDescriptorProto`] while collecting
//! diagnostics, and assembles a deduplicated [`descriptor::FileDescriptorSet`]
//! ready for serialization through the coded stream codec in [`io`].

use vstd::prelude::*;

pub mod compiler;
pub mod descriptor;
pub mod io;
pub mod parser;
pub mod path;
pub mod wire;

pub use compiler::DescriptorDatabase;
pub use descriptor::{
    DescriptorProto, FileDescriptorProto, FileDescriptorSet, Message,
};

verus! {

/// An operation failed.
///
/// This error carries no details about why the operation failed or what the
/// operation was; APIs that can say more return a richer error type (for
/// example [`compiler::FileLoadError`]).
#[derive(Debug, Clone, Copy, Eq, PartialEq, Structural, Hash)]
pub struct OperationFailedError;

} // verus!

//! Lock-order observation and validation.
//!
//! Instrumented threads record, with no cross-thread coordination, every
//! pair of (already-held lock, newly-acquired lock) they observe, one
//! append-only log file per thread. An offline analyzer merges all logs
//! into one directed graph over lock ranks and reports every cycle: a
//! cycle is evidence of an inconsistent global lock hierarchy that could
//! deadlock.

pub mod action;
pub mod codec;
pub mod graph;
pub mod observer;
pub mod registry;
pub mod analyzer;
pub mod enable_extension;

use vstd::prelude::*;

verus! {

/// A resolved source coordinate: the file, line and column at which a
/// lock operation occurred. File names are kept as raw bytes.
pub struct SourceCoord {
    pub file: Vec<u8>,
    pub line: u32,
    pub column: u32,
}

/// Mathematical model of a [`SourceCoord`].
pub struct SourceCoordV {
    pub file: Seq<u8>,
    pub line: u32,
    pub column: u32,
}

impl View for SourceCoord {
    type V = SourceCoordV;

    open spec fn view(&self) -> SourceCoordV {
        SourceCoordV { file: self.file@, line: self.line, column: self.column }
    }
}

impl Clone for SourceCoord {
    fn clone(&self) -> (r: Self)
        ensures
            r@ == self@,
    {
        SourceCoord { file: self.file.clone(), line: self.line, column: self.column }
    }
}

} // verus!

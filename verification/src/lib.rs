//! Six execution engines for an eight-command tape language: four
//! interpreters, from one that looks for the partner of a bracket each time
//! it jumps to one that runs an optimized instruction stream, and two
//! template JITs, whose listings of machine operations are emitted here and
//! encoded by the program around this library. The parsers, the
//! interpreters and the emitters are proved against mathematical models.

pub mod assembly;
pub mod brackets;
pub mod error;
pub mod math;
pub mod opinterp;
pub mod opinterp2;
pub mod opinterp3;
pub mod opjit;
pub mod report;
pub mod runtime;
pub mod semantics;
pub mod simpleinterp;
pub mod simplejit;
pub mod source;

//! Removal of unused `#include` directives from C and C++ sources, and the
//! propagation of the removed directives into the files that depend on them.

pub mod analyze;
pub mod clangfmt;
pub mod compilations;
pub mod dependencies;
pub mod fileio;
pub mod includes;
pub mod pattern;
pub mod propagate;
pub mod roundtrip;
pub mod shortest;
pub mod text;
pub mod util;

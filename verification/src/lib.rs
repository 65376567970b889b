//! A recursive-descent JSON parser that turns a sequence of characters into
//! an in-memory value tree, or reports failure with no diagnostics.
//!
//! The grammar itself is written down as specification functions in
//! [`grammar`]; the executable parser in [`parser`] is proved to return
//! exactly what those functions describe. Input and parsed text are held as
//! character sequences, and numbers are kept as their parsed components
//! (signed 32-bit integer part, fraction digits, exponent) so the whole
//! pipeline stays in exact integer arithmetic; turning a number into a
//! floating-point quantity is left to the caller.

pub mod chars;
pub mod model;
pub mod grammar;
pub mod parser;
pub mod laws;

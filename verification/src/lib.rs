//! Ordering of heterogeneous numeric values.
//!
//! A `NumericValue` is either a signed 32-bit integer or a single-precision
//! floating-point number carried as its raw IEEE-754 bit pattern.  The crate
//! defines a four-valued comparison over such values (integers are promoted
//! to the floating representation before a mixed comparison, with
//! round-to-nearest-even, as a widening cast does) and a reduction that
//! extracts the maximum of a sequence under that comparison.
//!
//! Around that core stand a few small verified companions: linear search
//! in a vector, the text of a drawn rectangle and of a bouncing-ball
//! frame, and the decisions of a guessing game.  All input and output
//! stays with the caller.

pub mod compare;
pub mod game;
pub mod laws;
pub mod promote;
pub mod real_bits;
pub mod reduce;
pub mod search;
pub mod shapes;
pub mod window;

//! IEEE 754 binary arithmetic on integers: the model, rounding, and the
//! operations the renderer needs.

pub mod add;
pub mod bounds;
pub mod convert;
pub mod div;
pub mod format;
pub mod mul;
pub mod order;
pub mod power;
pub mod rounding;
pub mod sqrt;

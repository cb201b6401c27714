//! Mathematical programming modeler: build linear problems from variables,
//! expressions and constraints, write them in the LP file format and read the
//! solution files that external solvers produce.

pub mod num;
pub mod text;
pub mod util;
pub mod modeler;
pub mod dsl;
pub mod format;
pub mod solvers;

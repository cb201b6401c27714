//! Variables, expressions, constraints and problems.

pub mod variables;
pub mod simplify;
pub mod operations;
pub mod problem;
pub mod semantics;

pub use self::variables::{
    BoundableLp, Constraint, LpBinary, LpConstraint, LpContinuous, LpExpression, LpInteger,
    Term, VarModel,
};

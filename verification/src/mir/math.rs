//! The polynomials of symbolic shapes, under the name the mid-level IR uses.
pub use crate::mir::polynomial::Expr;

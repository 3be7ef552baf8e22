//! Static analysis core of a native compiler for the Uiua array language:
//! symbolic shapes, value-type lattices and data-flow graph construction.

pub mod analysis;
pub mod data_flow;
pub mod float;
pub mod generic_ir;
pub mod hir;
pub mod mir;
pub mod text;
pub mod tir;

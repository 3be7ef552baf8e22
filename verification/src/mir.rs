//! Mid-level IR: shares the value types and operations of the typed IR, and
//! the polynomials of symbolic shapes.
pub mod math;
pub mod polynomial;

pub use crate::tir::{
    demote_known_shape, fmt_shape, ArrayInfo, ArrayValue, Enum, EnumInfo, FunctionMeta, MapInfo, Struct, StructInfo,
    TirOp as MirOp, ValueInfo,
};

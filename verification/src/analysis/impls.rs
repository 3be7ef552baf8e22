//! How each primitive transforms the types of its arguments.
pub mod pervasive_dyadic;
pub mod pervasive_monadic;
pub mod func;
pub mod comparison;
pub mod mapping_mod;

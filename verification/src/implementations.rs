//! The field element implementation that the library uses.

pub use crate::field::{Element, MalachiteElement};

//! Compiler-side data of the Ant language back end: the scoped symbol table,
//! constant values and their byte images, generic instantiation helpers and
//! struct-building plans.

pub mod build_struct;
pub mod generic;
pub mod name_map;
pub mod table;
pub mod ty;
pub mod value;

#![allow(non_snake_case, non_camel_case_types)]
use vstd::prelude::*;

pub mod binary_tree;
pub mod rlu;
pub mod rlu_set;

pub use binary_tree::BinaryTree;
pub use rlu_set::RluSet;

verus! {

} // verus!

//! Normal-order evaluation of pure (untyped) lambda calculus terms, with the
//! full-reducing variant KN of the Krivine abstract machine.
//!
//! Terms use De Bruijn indices; the machine works on closures (terms with
//! the environments in which they are evaluated), which gives normal-order
//! beta reduction without capture-avoiding substitution. Terms can be read
//! and written in Binary Lambda Calculus notation (`format::blc`) and in a
//! textual notation with named variables (`format::named`).

use vstd::prelude::*;

pub mod beta;
pub mod format;
pub mod machine;
pub mod numerals;
pub mod term;

pub use machine::{eval, eval_within};
pub use term::Term;

verus! {

} // verus!

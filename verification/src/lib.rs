//! Verified core of a support vector machine toolkit: fold and split bookkeeping,
//! the record layout of CSV data, confusion counts, and the integer decisions of
//! the SMO trainer. The floating-point numerics are left to the program that uses
//! this crate.
pub mod cross_val;
pub mod data;
pub mod evaluation;
pub mod hyperparameters;
pub mod kernel;
pub mod optimizer;
pub mod plots;
pub mod svm;

//! Finite sets, binary operations on them, and exhaustive tests of the group
//! laws and of the relations between groups.
//!
//! Every executable function carries a contract over the mathematical model
//! of its arguments, and every contract is proved. The few calls into other
//! crates stand behind the wrappers of [`enumeration`], whose contracts are
//! taken on trust.

pub mod elements;
pub mod enumeration;
pub mod groups;
pub mod operations;
pub mod selection;
pub mod sets;

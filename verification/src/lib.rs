//! A small evaluator for the untyped lambda calculus with named top-level
//! definitions.
//!
//! A program is a [`Book`] of named [`Term`]s. Free variables that name a
//! definition are turned into explicit references, the remaining free
//! variables are rejected, and the `main` definition is rewritten step by step
//! until a stop rule is satisfied or no step applies.
//!
//! Every executable function carries a contract over the mathematical model
//! [`Expr`] of a term, and the contracts are machine checked.
pub mod ast;
pub mod passes;
pub mod reduce;
pub mod parser;

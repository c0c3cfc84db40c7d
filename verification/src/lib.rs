//! A small task tracker: short text tasks with unique positive identifiers,
//! kept as an ordered collection and persisted as a single text document.
//!
//! The library holds the verified logic: the task model and its invariant,
//! identifier assignment, the add/remove/list operations, the storage codec,
//! and the command dispatcher. Reading the terminal arguments, the storage
//! file itself, and printing are left to the surrounding program.

pub mod codec;
pub mod commands;
pub mod laws;
pub mod numbers;
pub mod task;
pub mod text;

//! # Lock ordering
//!
//! Taking several mutexes one after the other is safe from deadlock when
//! every place that takes them does so in the same order. This crate turns a
//! list of locks, each optionally marked `mut`, into one `let` statement that
//! takes them in the order of the names they are bound to, and unwraps every
//! guard, so that a poisoned lock panics at once.
//!
//! The list is given as the texts of its tokens. The list
//! `mut lock2, lock3, mut lock1`, for example, becomes
//!
//! ```text
//! let (mut lock1, mut lock2, lock3) = (lock1.lock().unwrap(), lock2.lock().unwrap(), lock3.lock().unwrap());
//! ```
//!
//! - `mut` is optional and stands before the path.
//! - The path may be a chain of field lookups such as `self.locks.connections`;
//!   the guard is then bound to `connections`, the last part of the path.
//! - The locks are taken in the order of the bound names, compared as their
//!   UTF-8 encodings are.

use vstd::prelude::*;

pub mod emit;
pub mod item;
pub mod laws;
pub mod order;
pub mod parse;
pub mod sort;

use crate::emit::{emit, statement};
use crate::parse::{parse, parsed};
use crate::sort::{sort_by_name, sort_items};

verus! {

/// The statement that a token list stands for: its items, in canonical order,
/// bound by one `let`.
pub open spec fn expansion(tokens: Seq<Seq<char>>) -> Seq<char> {
    statement(sort_by_name(parsed(tokens)))
}

/// Lock one or more locks at a time.
///
/// Takes the token texts of a list of locks, each with an optional `mut`
/// before its path, and writes a single `let` statement that binds the
/// `.lock().unwrap()` of every path to a variable named after the last token
/// of the path. For the list `mut self.locks.connections` the statement is
///
/// ```text
/// let (mut connections) = (self.locks.connections.lock().unwrap());
/// ```
pub fn lock(tokens: &[String]) -> (out: String)
    ensures
        out@ == expansion(tokens.deep_view()),
{
    let mut items = parse(tokens);
    sort_items(&mut items);
    emit(&items)
}

} // verus!

//! Values and persistent lists for a small Lisp.
//!
//! * [`list`]: an immutable singly-linked list whose tails are shared. Code
//!   is data: a form is a list of values.
//! * [`float`]: a float with a total order, in which NaN equals NaN and is
//!   greater than every other float.
//! * [`types`]: the values themselves, and what it means for two of them to
//!   be the same value.
//! * [`collections`]: sets of values and maps from strings to values.
//! * [`equality`], [`hash`], [`copy`], [`text`]: deciding whether two values
//!   are the same, hashing a value, copying it, and writing it.
//! * [`laws`]: being the same is an equivalence, and values that are the
//!   same hash alike.
//!
//! Nothing here changes a value in place, and nothing here fails: the head
//! of an empty list is `None`, its tail the empty list.

pub mod collections;
pub mod copy;
pub mod equality;
pub mod float;
pub mod hash;
pub mod laws;
pub mod list;
pub mod text;
pub mod types;

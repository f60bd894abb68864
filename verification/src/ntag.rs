use vstd::prelude::*;

verus! {

/// A literal.
pub const LIT: i64 = 0;
/// Addition.
pub const ADD: i64 = 1;
/// Subtraction.
pub const SUB: i64 = 2;
/// A variable reference.
pub const VAR: i64 = 3;
/// A binding.
pub const LET: i64 = 4;
/// Equality.
pub const EQ: i64 = 5;
/// A branch.
pub const IF: i64 = 6;
/// The empty list.
pub const NIL: i64 = 7;
/// A pair; in effect position, a sequence.
pub const CONS: i64 = 8;
/// The first of a pair.
pub const CAR: i64 = 9;
/// The second of a pair.
pub const CDR: i64 = 10;
/// Whether a value is a pair.
pub const PAIRP: i64 = 11;
/// A closure.
pub const OFN: i64 = 16;
/// Applying a closure.
pub const OAPP: i64 = 17;
/// A new box.
pub const NEWBOX: i64 = 21;
/// Reading a box.
pub const GETBOX: i64 = 22;
/// Writing a box.
pub const SETBOX: i64 = 23;
/// A loop.
pub const WHILE: i64 = 33;

} // verus!

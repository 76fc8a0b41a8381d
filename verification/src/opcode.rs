//! The script opcodes that classifying a script looks at.
use vstd::prelude::*;

verus! {

/// Marks an output as unspendable; what follows is data.
pub const OP_RETURN: u8 = 0x6a;

/// Duplicates the top stack item.
pub const OP_DUP: u8 = 0x76;

/// Pushes whether the top two items are equal.
pub const OP_EQUAL: u8 = 0x87;

/// `OP_EQUAL`, then fails unless the result is true.
pub const OP_EQUALVERIFY: u8 = 0x88;

/// Replaces the top item with its RIPEMD-160 of SHA-256 hash.
pub const OP_HASH160: u8 = 0xa9;

/// Checks a signature against a public key.
pub const OP_CHECKSIG: u8 = 0xac;

} // verus!

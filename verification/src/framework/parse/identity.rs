//! Fingerprints of tokens.

use std::collections::hash_map::DefaultHasher;
use std::hash::Hasher;
use vstd::prelude::*;
use vstd::std_specs::hash::DefaultHasherAdditionalSpecFns;

use crate::framework::parse::grammar::TerminalId;
use crate::framework::parse::parsing::lineage::{low_bytes, low_bytes_of};

verus! {

/// A hash by which tokens are told apart within one process.
pub type TokenFingerprint = u64;

/// What is hashed of the terminal of a token.
pub open spec fn terminal_bytes(terminal: Option<TerminalId>) -> Seq<u8> {
    match terminal {
        Some(id) => low_bytes((1u64 << 32) | (id as u64)),
        None => low_bytes(0),
    }
}

/// The fingerprint of a token: its terminal, the bytes of its value, and its
/// length.
pub fn token_fingerprint(terminal: Option<TerminalId>, value: &[u8], length: usize) -> (r:
    TokenFingerprint)
    ensures
        r == DefaultHasher::spec_finish(
            seq![terminal_bytes(terminal), value@, low_bytes(length as u64)],
        ),
{
    let mut hasher = DefaultHasher::new();
    let tag: u64 = match terminal {
        Some(id) => (1u64 << 32) | (id as u64),
        None => 0,
    };
    hasher.write(&low_bytes_of(tag));
    hasher.write(value);
    hasher.write(&low_bytes_of(length as u64));
    assert(hasher@ =~= seq![terminal_bytes(terminal), value@, low_bytes(length as u64)]);
    hasher.finish()
}

/// The fingerprint of the end of the input.
pub fn eof_fingerprint() -> (r: TokenFingerprint)
    ensures
        r == 0,
{
    0
}

/// The fingerprint of a lexical error: the bytes of the error, and its length.
pub fn error_fingerprint(error: &[u8], length: usize) -> (r: TokenFingerprint)
    ensures
        r == DefaultHasher::spec_finish(seq![seq![1u8], error@, low_bytes(length as u64)]),
{
    let mut hasher = DefaultHasher::new();
    let tag: [u8; 1] = [1];
    hasher.write(&tag);
    hasher.write(error);
    hasher.write(&low_bytes_of(length as u64));
    assert(tag@ =~= seq![1u8]);
    assert(hasher@ =~= seq![seq![1u8], error@, low_bytes(length as u64)]);
    hasher.finish()
}

} // verus!

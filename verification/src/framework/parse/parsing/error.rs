//! Why a parse failed.

use vstd::prelude::*;

use crate::framework::parse::data::gss::GssNodeId;
use crate::framework::parse::data::product::ProductId;

verus! {

/// Why a syntax value could not be built.
#[derive(Clone, Copy, Debug, PartialEq, Eq, Structural)]
pub enum BuildError {
    /// A record that is not there.
    MissingAst(usize),
    /// A product that is not there.
    MissingProduct(usize),
    /// The children do not fit the production.
    Mismatch { production: u32 },
    /// More bytes than can be counted.
    TooLong,
    /// No identity is left.
    Exhausted,
}

/// Why a parse failed.
#[derive(Debug)]
pub enum ParseError {
    MissingGoto { state: usize, non_terminal: u32 },
    NoActiveStacks { column: Option<u64> },
    MissingGssNode { node: GssNodeId },
    Build(BuildError),
    Recovered { product: ProductId },
    InvalidReachability { kind: &'static str, key: u64, before: u32, delta: i64 },
}

/// A change to a reach count that cannot be made.
pub ghost struct ReachError {
    pub kind: Seq<char>,
    pub key: u64,
    pub before: u32,
    pub delta: i64,
}

impl ParseError {
    /// The reach count that could not be changed.
    pub open spec fn reach_error(self) -> Option<ReachError> {
        match self {
            ParseError::InvalidReachability { kind, key, before, delta } => Some(
                ReachError { kind: kind@, key, before, delta },
            ),
            _ => None,
        }
    }
}

} // verus!

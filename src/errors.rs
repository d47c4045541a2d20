use vstd::prelude::*;

verus! {

/// Every way a request on the index can be refused. A refused request
/// leaves every record as it was.
#[derive(Clone, Copy, Debug, PartialEq, Eq, Structural)]
pub enum DipErrors {
    StringTooLong,
    NodeFull,
    NodeNotFull,
    NotAChild,
    AlreadyAChild,
    NotEnoughStake,
    InvalidNode,
    TagsMismatch,
    NotChildNote,
    NotOnNode,
    AlreadyOnNode,
    /// A record with the same identity already exists.
    AlreadyExists,
    /// The signer is not the administrator of the forest.
    Unauthorized,
    /// The staker has already claimed this bribe.
    AlreadyClaimed,
    /// An aggregate would exceed the range of `u64`.
    StakeOverflow,
    /// A stake account can only be closed once it holds nothing.
    StakeNotEmpty,
}

} // verus!

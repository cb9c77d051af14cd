//! How far a transaction has come on its way into the chain.
use crate::primitives::BlockHeight;
use vstd::prelude::*;

verus! {

/// The confirmation status of a transaction, with the height that it was last seen or expected at.
#[derive(Clone, Copy, Debug, PartialEq, Eq, PartialOrd, Ord, Structural)]
pub enum ConfirmationStatus {
    /// The transaction has been built but not sent.
    Calculated(BlockHeight),
    /// The transaction has been sent to the network.
    Transmitted(BlockHeight),
    /// The transaction is in the mempool.
    Mempool(BlockHeight),
    /// The transaction is in a block of the chain.
    Confirmed(BlockHeight),
    /// The transaction is known to be invalid or expired.
    Failed(BlockHeight),
}

impl ConfirmationStatus {
    /// The height that the status carries.
    pub open spec fn height(self) -> BlockHeight {
        match self {
            ConfirmationStatus::Calculated(height) => height,
            ConfirmationStatus::Transmitted(height) => height,
            ConfirmationStatus::Mempool(height) => height,
            ConfirmationStatus::Confirmed(height) => height,
            ConfirmationStatus::Failed(height) => height,
        }
    }

    /// Whether the transaction may still come into the chain.
    pub open spec fn pending(self) -> bool {
        self is Calculated || self is Transmitted || self is Mempool
    }

    /// The place of the status on the way into the chain.
    pub open spec fn stage(self) -> int {
        match self {
            ConfirmationStatus::Calculated(_) => 0,
            ConfirmationStatus::Transmitted(_) => 1,
            ConfirmationStatus::Mempool(_) => 2,
            ConfirmationStatus::Confirmed(_) => 3,
            ConfirmationStatus::Failed(_) => 4,
        }
    }

    /// The height of the block of a confirmed transaction.
    pub open spec fn confirmed_height(self) -> Option<BlockHeight> {
        if self is Confirmed {
            Some(self.height())
        } else {
            None
        }
    }

    pub fn is_confirmed(&self) -> (r: bool)
        ensures
            r == (*self is Confirmed),
    {
        matches!(self, ConfirmationStatus::Confirmed(_))
    }

    pub fn is_failed(&self) -> (r: bool)
        ensures
            r == (*self is Failed),
    {
        matches!(self, ConfirmationStatus::Failed(_))
    }

    /// Whether the transaction may still come into the chain.
    pub fn is_pending(&self) -> (r: bool)
        ensures
            r == self.pending(),
    {
        match self {
            ConfirmationStatus::Calculated(_) => true,
            ConfirmationStatus::Transmitted(_) => true,
            ConfirmationStatus::Mempool(_) => true,
            ConfirmationStatus::Confirmed(_) => false,
            ConfirmationStatus::Failed(_) => false,
        }
    }

    /// The height that the status carries.
    pub fn get_height(&self) -> (r: BlockHeight)
        ensures
            r == self.height(),
    {
        match self {
            ConfirmationStatus::Calculated(height) => *height,
            ConfirmationStatus::Transmitted(height) => *height,
            ConfirmationStatus::Mempool(height) => *height,
            ConfirmationStatus::Confirmed(height) => *height,
            ConfirmationStatus::Failed(height) => *height,
        }
    }

    /// The height of the block of a confirmed transaction.
    pub fn get_confirmed_height(&self) -> (r: Option<BlockHeight>)
        ensures
            r == self.confirmed_height(),
    {
        match self {
            ConfirmationStatus::Confirmed(height) => Some(*height),
            _ => None,
        }
    }

    /// The place of the status on the way into the chain.
    fn place(&self) -> (r: u8)
        ensures
            r == self.stage(),
    {
        match self {
            ConfirmationStatus::Calculated(_) => 0,
            ConfirmationStatus::Transmitted(_) => 1,
            ConfirmationStatus::Mempool(_) => 2,
            ConfirmationStatus::Confirmed(_) => 3,
            ConfirmationStatus::Failed(_) => 4,
        }
    }

    /// Whether the status may take the place of `current`: it must lie further on the way into the chain, and a
    /// confirmed or failed transaction moves only when `force` is set.
    pub open spec fn supersedes(self, current: ConfirmationStatus, force: bool) -> bool {
        force || (current.pending() && self.stage() > current.stage())
    }

    /// Whether the status may take the place of `current`.
    pub fn may_follow(&self, current: &ConfirmationStatus, force: bool) -> (r: bool)
        ensures
            r == self.supersedes(*current, force),
    {
        force || (current.is_pending() && self.place() > current.place())
    }
}

} // verus!

//! Ledger primitives: identifier aliases, token records, miner metadata and
//! the error taxonomy shared by every operation.

use vstd::prelude::*;

use crate::smap::WellFormed;
use crate::sset::StringSet;

verus! {

/// A token is identified by `TokenMetadataId + "#" + TokenSeqNum`.
pub type TokenId = String;

pub type TokenSeqNum = String;

pub type TokenMetadataId = String;

pub type MinerMetadataId = String;

/// Account identifiers are opaque strings; no record is kept per account.
pub type AccountId = String;

/// Aggregate mining hash-power credited to an owner while miners run.
pub type Thash = u32;

/// Discrete settlement period, advanced once per successful settlement.
pub type MiningEpoch = u32;

/// Height of the host ledger's block chain.
pub type BlockHeight = u64;

/// Smallest unit of the host ledger's native balance.
pub type Balance = u128;

pub type TokenStatus = u8;

pub type PowerSwitch = u8;

/// Status of a mining pool: normal or maintaining.
pub type PoolStatus = u8;

/// Status value of a miner that operates normally.
pub const ST_NORMAL: u8 = 0;

/// Status value of a malfunctioning miner.
pub const ST_MALFUNCTION: u8 = 1;

/// Power switch value of a miner that is powered off.
pub const PW_OFF: u8 = 0;

/// Power switch value of a miner that is powered on.
pub const PW_ON: u8 = 1;

/// Typed failure taxonomy. Every operation fails atomically with one of
/// these and leaves all persisted structures unchanged.
#[derive(Clone, Copy, Debug, PartialEq, Eq, Structural)]
pub enum Error {
    /// A token or metadata record does not exist.
    NotFound,
    /// The caller is not both owner and operator of the miner.
    Forbidden,
    /// The transfer sender is neither the owner nor an approved account.
    Unauthorized,
    /// The settlement caller is not the designated contract owner.
    NotAuthorized,
    /// A caller-supplied expected owner does not match the actual owner.
    OwnerMismatch,
    /// Sender and receiver of a transfer are the same account.
    SelfTransfer,
    /// Stored power does not cover even one epoch of runtime.
    InsufficientPower,
    /// The sender holds fewer power cards than the transfer asks for.
    InsufficientBalance,
    /// Not enough blocks have elapsed since the previous settlement.
    TooSoon,
    /// The owner index disagrees with the primary token store.
    InconsistentIndex,
    /// An internal accounting invariant was violated.
    InternalError,
}

/// Mathematical abstraction of a [`Token`] record.
pub ghost struct TokenView {
    pub sn: Seq<char>,
    pub owner_id: Seq<char>,
    pub metadata_id: Seq<char>,
    pub miner_metadata_id: Seq<char>,
    pub operator: Seq<char>,
    pub status: u8,
    pub switch: u8,
    pub power_left: u32,
    pub power_deadline: u32,
    pub approved_account_ids: Seq<Seq<char>>,
}

/// The miner machine. `metadata_id` is its batch type, `sn` its serial
/// number in that batch, and `power_left` the remaining stored power that
/// mining consumes.
pub struct Token {
    pub sn: TokenSeqNum,
    pub owner_id: AccountId,
    pub metadata_id: TokenMetadataId,
    pub miner_metadata_id: MinerMetadataId,
    /// Who may power the miner on and off; equals the owner unless delegated.
    pub operator: AccountId,
    pub status: TokenStatus,
    pub switch: PowerSwitch,
    pub power_left: u32,
    /// Epoch at which the current power charge is exhausted; meaningful only
    /// while the switch is on.
    pub power_deadline: MiningEpoch,
    /// Transfer delegation, kept for standards compatibility.
    pub approved_account_ids: StringSet,
}

impl DeepView for Token {
    type V = TokenView;

    open spec fn deep_view(&self) -> TokenView {
        TokenView {
            sn: self.sn@,
            owner_id: self.owner_id@,
            metadata_id: self.metadata_id@,
            miner_metadata_id: self.miner_metadata_id@,
            operator: self.operator@,
            status: self.status,
            switch: self.switch,
            power_left: self.power_left,
            power_deadline: self.power_deadline,
            approved_account_ids: self.approved_account_ids@,
        }
    }
}

impl View for Token {
    type V = TokenView;

    open spec fn view(&self) -> TokenView {
        self.deep_view()
    }
}

impl WellFormed for Token {
    open spec fn wf(&self) -> bool {
        self.approved_account_ids.set_wf()
    }
}

/// Custom metadata of a miner machine type: `thash` is the hash-power each
/// copy produces while on, `w` the power units one copy drains per epoch.
/// Immutable once created.
pub struct MinerMetadata {
    pub producer: String,
    pub category: String,
    pub thash: Thash,
    pub w: u32,
}

impl DeepView for MinerMetadata {
    type V = MinerMetadata;

    open spec fn deep_view(&self) -> MinerMetadata {
        *self
    }
}

impl View for MinerMetadata {
    type V = MinerMetadata;

    open spec fn view(&self) -> MinerMetadata {
        *self
    }
}

impl WellFormed for MinerMetadata {
    open spec fn wf(&self) -> bool {
        true
    }
}

} // verus!

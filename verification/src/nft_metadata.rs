//! Token-level and contract-level metadata records, kept for compatibility
//! with the host ledger's non-fungible-token standard. The core treats them
//! as opaque payload except for `MinerMetadata`, which lives in `types`.

use vstd::prelude::*;
use vstd::string::StringExecFns;

use crate::smap::WellFormed;
use crate::state::Contract;

verus! {

/// Top-level information about the token collection managed by the core.
pub struct NFTMetadata {
    /// Essentially a version, like "nft-1.0.0".
    pub spec: String,
    pub name: String,
    pub symbol: String,
    /// Data URL of an icon.
    pub icon: Option<String>,
    /// Gateway known to have reliable access to decentralized storage.
    pub base_uri: Option<String>,
    /// URL to a JSON file with more information.
    pub reference: Option<String>,
    /// Hash of the JSON behind `reference`.
    pub reference_hash: Option<Vec<u8>>,
}

/// Standard token metadata. The miner-specific attributes are carried in
/// `extra` as an encoded payload; the embedder decodes them into a
/// [`crate::types::MinerMetadata`] before calling the core.
pub struct TokenMetadata {
    /// Used as the category: miner or power.
    pub title: Option<String>,
    /// Used as the sub-category: miner types, power types.
    pub description: Option<String>,
    pub media: Option<String>,
    pub media_hash: Option<Vec<u8>>,
    /// Number of copies of this kind of token.
    pub copies: Option<u64>,
    pub issued_at: Option<String>,
    pub expires_at: Option<String>,
    pub starts_at: Option<String>,
    pub updated_at: Option<String>,
    /// Encoded miner or power attributes.
    pub extra: Option<String>,
    pub reference: Option<String>,
    pub reference_hash: Option<Vec<u8>>,
}

impl DeepView for TokenMetadata {
    type V = TokenMetadata;

    open spec fn deep_view(&self) -> TokenMetadata {
        *self
    }
}

impl View for TokenMetadata {
    type V = TokenMetadata;

    open spec fn view(&self) -> TokenMetadata {
        *self
    }
}

impl WellFormed for TokenMetadata {
    open spec fn wf(&self) -> bool {
        true
    }
}

pub trait NonFungibleTokenMetadata {
    fn nft_metadata(&self) -> NFTMetadata;
}

impl NonFungibleTokenMetadata for Contract {
    /// Fixed collection-level metadata of this contract.
    fn nft_metadata(&self) -> NFTMetadata {
        NFTMetadata {
            spec: String::from_str("findsatoshi-nft-1.0.0"),
            name: String::from_str("FindsatoshiNft"),
            symbol: String::from_str("FST"),
            icon: Some(String::from_str("")),
            base_uri: Some(String::from_str("")),
            reference: None,
            reference_hash: None,
        }
    }
}

} // verus!

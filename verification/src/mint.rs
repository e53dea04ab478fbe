//! Record creation: miner metadata types, individual miner tokens and
//! power-card issues. The minting service decodes metadata payloads and
//! collects storage costs before calling in here.

use vstd::prelude::*;
use vstd::string::StringExecFns;

use crate::index::{lemma_index_add_token, spec_index_add};
use crate::nft_metadata::TokenMetadata;
use crate::smap::{StringMap, WellFormed};
use crate::sset::StringSet;
use crate::state::Contract;
use crate::types::{AccountId, MinerMetadata, MinerMetadataId, Token, TokenMetadataId,
    TokenSeqNum, TokenView, PW_OFF, ST_NORMAL};

verus! {

/// The view of a freshly minted miner: owned and operated by `owner`,
/// normal status, powered off, no stored power and no approvals.
pub open spec fn spec_fresh_token(
    sn: Seq<char>,
    owner: Seq<char>,
    metadata_id: Seq<char>,
) -> TokenView {
    TokenView {
        sn: sn,
        owner_id: owner,
        metadata_id: metadata_id,
        miner_metadata_id: metadata_id,
        operator: owner,
        status: ST_NORMAL,
        switch: PW_OFF,
        power_left: 0,
        power_deadline: 0,
        approved_account_ids: Seq::empty(),
    }
}

impl Contract {
    /// Registers a new miner type: the standard metadata record and the
    /// miner attributes under one fresh metadata-type id. Types with a zero
    /// hash rate or a zero drain rate are degenerate and are not accepted.
    pub fn create_miner_type(
        &mut self,
        metadata_id: &TokenMetadataId,
        metadata: TokenMetadata,
        miner_metadata: MinerMetadata,
    )
        requires
            old(self).wf(),
            !old(self).token_metadata_by_id@.contains_key(metadata_id@),
            !old(self).miner_metadata_by_id@.contains_key(metadata_id@),
            miner_metadata.thash >= 1,
            miner_metadata.w >= 1,
        ensures
            final(self).wf(),
            final(self).token_metadata_by_id@ == old(self).token_metadata_by_id@.insert(
                metadata_id@,
                metadata,
            ),
            final(self).miner_metadata_by_id@ == old(self).miner_metadata_by_id@.insert(
                metadata_id@,
                miner_metadata,
            ),
            *final(self) == (Contract {
                token_metadata_by_id: final(self).token_metadata_by_id,
                miner_metadata_by_id: final(self).miner_metadata_by_id,
                ..*old(self)
            }),
    {
        let ghost types0 = self.miner_metadata_by_id@;
        self.token_metadata_by_id.insert(metadata_id.clone(), metadata);
        self.miner_metadata_by_id.insert(metadata_id.clone(), miner_metadata);
        proof {
            // No stored token can reference the fresh type id.
            assert forall|id: Seq<char>| #[trigger]
                self.miners_by_id@.contains_key(id) implies self.token_ok(
                self.miners_by_id@[id],
            ) by {
                let t = self.miners_by_id@[id];
                assert(types0.contains_key(t.miner_metadata_id));
                assert(t.miner_metadata_id != metadata_id@);
            }
        }
    }

    /// Mints one miner of type `metadata_id` with serial number `sn` for
    /// `token_owner`, storing the token record and indexing it under its
    /// owner, atomically. The token id is the metadata-type id, `#`, and
    /// the serial number; it is returned for the caller's bookkeeping.
    pub fn add_miner(
        &mut self,
        token_owner: &AccountId,
        metadata_id: &MinerMetadataId,
        sn: &TokenSeqNum,
    ) -> (token_id: String)
        requires
            old(self).wf(),
            old(self).miner_metadata_by_id@.contains_key(metadata_id@),
            !old(self).miners_by_id@.contains_key(metadata_id@ + "#"@ + sn@),
        ensures
            final(self).wf(),
            token_id@ == metadata_id@ + "#"@ + sn@,
            final(self).miners_by_id@ == old(self).miners_by_id@.insert(
                token_id@,
                spec_fresh_token(sn@, token_owner@, metadata_id@),
            ),
            final(self).miners_per_owner@ == spec_index_add(
                old(self).miners_per_owner@,
                token_owner@,
                metadata_id@,
                token_id@,
            ),
            *final(self) == (Contract {
                miners_by_id: final(self).miners_by_id,
                miners_per_owner: final(self).miners_per_owner,
                ..*old(self)
            }),
    {
        let mut token_id = metadata_id.clone();
        token_id.append("#");
        token_id.append(sn.as_str());

        let ghost tokens0 = self.miners_by_id@;
        let ghost idx0 = self.miners_per_owner@;

        let token = Token {
            sn: sn.clone(),
            owner_id: token_owner.clone(),
            metadata_id: metadata_id.clone(),
            miner_metadata_id: metadata_id.clone(),
            operator: token_owner.clone(),
            status: ST_NORMAL,
            switch: PW_OFF,
            power_left: 0,
            power_deadline: 0,
            approved_account_ids: StringSet::new(),
        };
        let ghost t_new = token@;
        self.miners_by_id.insert(token_id.clone(), token);
        self.internal_add_token_to_owner(token_owner, metadata_id, &token_id);

        proof {
            lemma_index_add_token(tokens0, idx0, token_id@, t_new);
            // The fresh miner is powered off, so the scheduler stays in step.
            assert forall|e: u32, id: Seq<char>|
                self.power_events@.contains_key(e) && #[trigger] self.power_events@[e].contains(
                    id,
                ) implies self.miners_by_id@.contains_key(id) && self.miners_by_id@[id].switch
                == crate::types::PW_ON && self.miners_by_id@[id].power_deadline == e by {
                assert(tokens0.contains_key(id));
                assert(id != token_id@);
            }
            assert forall|id: Seq<char>| #[trigger]
                self.miners_by_id@.contains_key(id) implies self.token_ok(
                self.miners_by_id@[id],
            ) by {
                if id != token_id@ {
                    assert(tokens0.contains_key(id));
                    assert(self.miners_by_id@[id] == tokens0[id]);
                }
            }
        }
        token_id
    }

    /// Issues `metadata.copies` copies (one when unstated) of a power card
    /// under a fresh metadata-type id and credits them to `power_owner`.
    /// The copies of one power card are identical, so only the amount is
    /// recorded.
    pub fn issue_power_cards(
        &mut self,
        power_owner: &AccountId,
        metadata_id: &TokenMetadataId,
        metadata: TokenMetadata,
    )
        requires
            old(self).wf(),
            !old(self).token_metadata_by_id@.contains_key(metadata_id@),
            match metadata.copies {
                Some(c) => 1 <= c <= u32::MAX,
                None => true,
            },
        ensures
            final(self).wf(),
            final(self).token_metadata_by_id@ == old(self).token_metadata_by_id@.insert(
                metadata_id@,
                metadata,
            ),
            ({
                let quantity: u32 = match metadata.copies {
                    Some(c) => c as u32,
                    None => 1u32,
                };
                let inner = if old(self).powers_per_owner@.contains_key(power_owner@) {
                    old(self).powers_per_owner@[power_owner@]
                } else {
                    Map::<Seq<char>, u32>::empty()
                };
                final(self).powers_per_owner@ == old(self).powers_per_owner@.insert(
                    power_owner@,
                    inner.insert(metadata_id@, quantity),
                )
            }),
            *final(self) == (Contract {
                token_metadata_by_id: final(self).token_metadata_by_id,
                powers_per_owner: final(self).powers_per_owner,
                ..*old(self)
            }),
    {
        let quantity: u32 = match metadata.copies {
            Some(c) => c as u32,
            None => 1,
        };
        self.token_metadata_by_id.insert(metadata_id.clone(), metadata);

        let ghost powers0 = self.powers_per_owner@;
        let mut power_map: StringMap<u32> = match self.powers_per_owner.take(power_owner) {
            Some(m) => m,
            None => StringMap::new(),
        };
        let ghost inner0 = power_map@;
        power_map.insert(metadata_id.clone(), quantity);
        self.powers_per_owner.insert(power_owner.clone(), power_map);
        proof {
            let spec_inner = if powers0.contains_key(power_owner@) {
                powers0[power_owner@]
            } else {
                Map::<Seq<char>, u32>::empty()
            };
            assert(inner0 =~= spec_inner);
            assert(self.powers_per_owner@ =~= powers0.insert(
                power_owner@,
                spec_inner.insert(metadata_id@, quantity),
            ));
            assert forall|o: Seq<char>, c: Seq<char>|
                self.powers_per_owner@.contains_key(o) && #[trigger] self.powers_per_owner@[
                    o
                ].contains_key(c) implies self.powers_per_owner@[o][c] >= 1 by {
                if o == power_owner@ && c != metadata_id@ {
                    assert(powers0.contains_key(o) && powers0[o].contains_key(c));
                }
            }
            assert forall|o: Seq<char>| #[trigger]
                self.powers_per_owner@.contains_key(o) implies self.powers_per_owner@[o]
                != Map::<Seq<char>, u32>::empty() by {
                if o == power_owner@ {
                    assert(self.powers_per_owner@[o].contains_key(metadata_id@));
                } else {
                    assert(powers0.contains_key(o));
                }
            }
        }
    }
}

} // verus!

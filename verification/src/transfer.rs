//! Token transfer: the owner-index and token-store halves of a transfer are
//! updated together, approvals are cleared, and power, switch and status
//! travel with the token untouched.

use vstd::prelude::*;
use vstd::pervasive::unreached;

use crate::index::{lemma_index_add_token, lemma_index_remove_token, spec_index_add,
    spec_index_remove};
use crate::sset::StringSet;
use crate::state::{lemma_index_consistent_update_same_owner, lemma_scheduler_consistent_update,
    Contract};
use crate::types::{AccountId, Error, Token, TokenId, TokenView};

verus! {

/// The transferred token: new owner, approvals cleared, everything else
/// carried over unchanged.
pub open spec fn spec_transferred_token(t: TokenView, receiver: Seq<char>) -> TokenView {
    TokenView { owner_id: receiver, approved_account_ids: Seq::empty(), ..t }
}

/// The precondition checks of a transfer, in the order they are applied:
/// the token must exist, the sender must be its owner or approved, a
/// caller-supplied expected owner must match, and the receiver must differ
/// from the owner. `None` means the transfer goes ahead.
pub open spec fn spec_transfer_check(
    tokens: Map<Seq<char>, TokenView>,
    sender: Seq<char>,
    receiver: Seq<char>,
    tid: Seq<char>,
    enforce_owner: Option<Seq<char>>,
) -> Option<Error> {
    if !tokens.contains_key(tid) {
        Some(Error::NotFound)
    } else {
        let t = tokens[tid];
        if sender != t.owner_id && !t.approved_account_ids.contains(sender) {
            Some(Error::Unauthorized)
        } else if enforce_owner is Some && enforce_owner->Some_0 != t.owner_id {
            Some(Error::OwnerMismatch)
        } else if t.owner_id == receiver {
            Some(Error::SelfTransfer)
        } else {
            None
        }
    }
}

impl Contract {
    /// Moves `token_id` from its current owner to `receiver_id`.
    ///
    /// On success the previous owner and the cleared approval set are handed
    /// back, so the embedder can emit the transfer log event and refund the
    /// approvals' storage. A failed transfer leaves the state untouched.
    pub fn internal_transfer(
        &mut self,
        sender_id: &AccountId,
        receiver_id: &AccountId,
        token_id: &TokenId,
        enforce_owner_id: Option<&AccountId>,
    ) -> (r: Result<(AccountId, StringSet), Error>)
        requires
            old(self).wf(),
        ensures
            final(self).wf(),
            match spec_transfer_check(
                old(self).miners_by_id@,
                sender_id@,
                receiver_id@,
                token_id@,
                enforce_owner_id.deep_view(),
            ) {
                Some(e) => r == Err::<(AccountId, StringSet), Error>(e) && *final(self) == *old(
                    self,
                ),
                None => ({
                    let t = old(self).miners_by_id@[token_id@];
                    &&& r is Ok
                    &&& r->Ok_0.0@ == t.owner_id
                    &&& r->Ok_0.1@ == t.approved_account_ids
                    &&& final(self).miners_by_id@ == old(self).miners_by_id@.insert(
                        token_id@,
                        spec_transferred_token(t, receiver_id@),
                    )
                    &&& final(self).miners_per_owner@ == spec_index_add(
                        spec_index_remove(
                            old(self).miners_per_owner@,
                            t.owner_id,
                            t.miner_metadata_id,
                            token_id@,
                        )->Some_0,
                        receiver_id@,
                        t.miner_metadata_id,
                        token_id@,
                    )
                    &&& *final(self) == (Contract {
                        miners_by_id: final(self).miners_by_id,
                        miners_per_owner: final(self).miners_per_owner,
                        ..*old(self)
                    })
                }),
            },
    {
        match self.miners_by_id.get(token_id) {
            None => {
                return Err(Error::NotFound);
            },
            Some(tk) => {
                if *sender_id != tk.owner_id && !tk.approved_account_ids.contains(sender_id) {
                    return Err(Error::Unauthorized);
                }
                match enforce_owner_id {
                    Some(e) => {
                        if *e != tk.owner_id {
                            return Err(Error::OwnerMismatch);
                        }
                    },
                    None => {},
                }
                if tk.owner_id == *receiver_id {
                    return Err(Error::SelfTransfer);
                }
            },
        }
        let ghost tokens0 = self.miners_by_id@;
        let ghost idx0 = self.miners_per_owner@;
        let ghost t0 = tokens0[token_id@];

        let old_token = match self.miners_by_id.take(token_id) {
            Some(t) => t,
            None => unreached(),
        };
        let Token {
            sn,
            owner_id: previous_owner,
            metadata_id,
            miner_metadata_id,
            operator,
            status,
            switch,
            power_left,
            power_deadline,
            approved_account_ids,
        } = old_token;

        proof {
            lemma_index_remove_token(tokens0, idx0, token_id@);
        }
        match self.internal_remove_token_from_owner(&previous_owner, &miner_metadata_id, token_id)
        {
            Ok(()) => {},
            Err(_) => {
                unreached::<()>();
            },
        }
        self.internal_add_token_to_owner(receiver_id, &miner_metadata_id, token_id);

        let new_token = Token {
            sn,
            owner_id: receiver_id.clone(),
            metadata_id,
            miner_metadata_id,
            operator,
            status,
            switch,
            power_left,
            power_deadline,
            approved_account_ids: StringSet::new(),
        };
        let ghost t_new = new_token@;
        self.miners_by_id.insert(token_id.clone(), new_token);

        proof {
            let idx1 = spec_index_remove(idx0, t0.owner_id, t0.miner_metadata_id, token_id@)
                ->Some_0;
            lemma_index_add_token(tokens0.remove(token_id@), idx1, token_id@, t_new);
            assert(tokens0.remove(token_id@).insert(token_id@, t_new) =~= tokens0.insert(
                token_id@,
                t_new,
            ));
            assert(t_new == spec_transferred_token(t0, receiver_id@));
            lemma_scheduler_consistent_update(tokens0, self.power_events@, token_id@, t_new);
            assert forall|id: Seq<char>| #[trigger]
                self.miners_by_id@.contains_key(id) implies self.token_ok(
                self.miners_by_id@[id],
            ) by {
                if id != token_id@ {
                    assert(tokens0.contains_key(id));
                    assert(self.miners_by_id@[id] == tokens0[id]);
                }
            }
        }
        Ok((previous_owner, approved_account_ids))
    }

    /// Adds `account_id` to the approval set of `token_id`. Only the owner
    /// may delegate; approvals are cleared again on transfer.
    pub fn approve_account(
        &mut self,
        caller: &AccountId,
        token_id: &TokenId,
        account_id: &AccountId,
    ) -> (r: Result<(), Error>)
        requires
            old(self).wf(),
        ensures
            final(self).wf(),
            !old(self).miners_by_id@.contains_key(token_id@) ==> r == Err::<(), Error>(
                Error::NotFound,
            ) && *final(self) == *old(self),
            old(self).miners_by_id@.contains_key(token_id@) && caller@ != old(
                self,
            ).miners_by_id@[token_id@].owner_id ==> r == Err::<(), Error>(Error::Unauthorized)
                && *final(self) == *old(self),
            old(self).miners_by_id@.contains_key(token_id@) && caller@ == old(
                self,
            ).miners_by_id@[token_id@].owner_id ==> ({
                let t = old(self).miners_by_id@[token_id@];
                let t2 = TokenView {
                    approved_account_ids: if t.approved_account_ids.contains(account_id@) {
                        t.approved_account_ids
                    } else {
                        t.approved_account_ids.push(account_id@)
                    },
                    ..t
                };
                r == Ok::<(), Error>(()) && final(self).miners_by_id@ == old(
                    self,
                ).miners_by_id@.insert(token_id@, t2) && *final(self) == (Contract {
                    miners_by_id: final(self).miners_by_id,
                    ..*old(self)
                })
            }),
    {
        match self.miners_by_id.get(token_id) {
            None => {
                return Err(Error::NotFound);
            },
            Some(tk) => {
                if *caller != tk.owner_id {
                    return Err(Error::Unauthorized);
                }
            },
        }
        let ghost tokens0 = self.miners_by_id@;
        let ghost t0 = tokens0[token_id@];
        let mut token = match self.miners_by_id.take(token_id) {
            Some(t) => t,
            None => unreached(),
        };
        token.approved_account_ids.insert(account_id.clone());
        let ghost t_new = token@;
        self.miners_by_id.insert(token_id.clone(), token);
        proof {
            assert(tokens0.remove(token_id@).insert(token_id@, t_new) =~= tokens0.insert(
                token_id@,
                t_new,
            ));
            lemma_index_consistent_update_same_owner(tokens0, self.miners_per_owner@, token_id@,
                t_new);
            lemma_scheduler_consistent_update(tokens0, self.power_events@, token_id@, t_new);
            assert forall|id: Seq<char>| #[trigger]
                self.miners_by_id@.contains_key(id) implies self.token_ok(
                self.miners_by_id@[id],
            ) by {
                if id != token_id@ {
                    assert(tokens0.contains_key(id));
                    assert(self.miners_by_id@[id] == tokens0[id]);
                }
            }
        }
        Ok(())
    }
}

} // verus!

//! Batch surfaces: per-token miner transfers and power-card transfers
//! between owners.

use vstd::prelude::*;

use crate::index::{spec_index_add, spec_index_remove};
use crate::smap::StringMap;
use crate::state::Contract;
use crate::transfer::{spec_transfer_check, spec_transferred_token};
use crate::types::{AccountId, Error, TokenId, TokenMetadataId, TokenView};

verus! {

/// A batch of transfers, one token after the other, stopping at the first
/// failure; transfers already made stay applied (per-token delegation, no
/// atomicity across the batch).
pub open spec fn spec_batch_transfer(
    tokens: Map<Seq<char>, TokenView>,
    idx: Map<Seq<char>, Map<Seq<char>, Seq<Seq<char>>>>,
    sender: Seq<char>,
    receiver: Seq<char>,
    ids: Seq<Seq<char>>,
) -> (Map<Seq<char>, TokenView>, Map<Seq<char>, Map<Seq<char>, Seq<Seq<char>>>>, Option<Error>)
    decreases ids.len(),
{
    if ids.len() == 0 {
        (tokens, idx, None::<Error>)
    } else {
        match spec_transfer_check(tokens, sender, receiver, ids[0], None::<Seq<char>>) {
            Some(e) => (tokens, idx, Some(e)),
            None => {
                let t = tokens[ids[0]];
                spec_batch_transfer(
                    tokens.insert(ids[0], spec_transferred_token(t, receiver)),
                    spec_index_add(
                        spec_index_remove(idx, t.owner_id, t.miner_metadata_id, ids[0])->Some_0,
                        receiver,
                        t.miner_metadata_id,
                        ids[0],
                    ),
                    sender,
                    receiver,
                    ids.drop_first(),
                )
            },
        }
    }
}

/// The power-card holdings after debiting `amount` copies of `card` from
/// `o`, assuming the holding covers it: the count shrinks, and a count
/// that reaches zero is removed together with containers left empty.
pub open spec fn spec_card_debit(
    powers: Map<Seq<char>, Map<Seq<char>, u32>>,
    o: Seq<char>,
    card: Seq<char>,
    amount: u32,
) -> Map<Seq<char>, Map<Seq<char>, u32>> {
    let n = powers[o][card];
    if n - amount > 0 {
        powers.insert(o, powers[o].insert(card, (n - amount) as u32))
    } else {
        let inner = powers[o].remove(card);
        if inner == Map::<Seq<char>, u32>::empty() {
            powers.remove(o)
        } else {
            powers.insert(o, inner)
        }
    }
}

/// The power-card holdings after crediting `amount` copies of `card` to
/// `o`, creating containers on demand.
pub open spec fn spec_card_credit(
    powers: Map<Seq<char>, Map<Seq<char>, u32>>,
    o: Seq<char>,
    card: Seq<char>,
    amount: u32,
) -> Map<Seq<char>, Map<Seq<char>, u32>> {
    let inner = if powers.contains_key(o) {
        powers[o]
    } else {
        Map::<Seq<char>, u32>::empty()
    };
    let prev = if inner.contains_key(card) {
        inner[card]
    } else {
        0u32
    };
    powers.insert(o, inner.insert(card, (prev + amount) as u32))
}

/// How many copies of `card` the holdings record for `o`.
pub open spec fn spec_card_balance(
    powers: Map<Seq<char>, Map<Seq<char>, u32>>,
    o: Seq<char>,
    card: Seq<char>,
) -> u32 {
    if powers.contains_key(o) && powers[o].contains_key(card) {
        powers[o][card]
    } else {
        0u32
    }
}

impl Contract {
    /// Transfers the listed miners from `sender_id` to `receiver_id`, one
    /// after the other, stopping at the first failure. The batch is
    /// deliberately not atomic: transfers made before the failing one stay
    /// applied.
    pub fn batch_transfer_miners(
        &mut self,
        sender_id: &AccountId,
        receiver_id: &AccountId,
        token_ids: &Vec<TokenId>,
    ) -> (r: Result<(), Error>)
        requires
            old(self).wf(),
        ensures
            final(self).wf(),
            ({
                let (tk2, ix2, e) = spec_batch_transfer(
                    old(self).miners_by_id@,
                    old(self).miners_per_owner@,
                    sender_id@,
                    receiver_id@,
                    token_ids.deep_view(),
                );
                &&& final(self).miners_by_id@ == tk2
                &&& final(self).miners_per_owner@ == ix2
                &&& r == (match e {
                    Some(er) => Err::<(), Error>(er),
                    None => Ok::<(), Error>(()),
                })
                &&& *final(self) == (Contract {
                    miners_by_id: final(self).miners_by_id,
                    miners_per_owner: final(self).miners_per_owner,
                    ..*old(self)
                })
            }),
    {
        let ghost tokens0 = self.miners_by_id@;
        let ghost idx0 = self.miners_per_owner@;
        let ghost ids = token_ids.deep_view();
        let n = token_ids.len();
        let mut i: usize = 0;
        proof {
            assert(ids.skip(0) =~= ids);
        }
        while i < n
            invariant
                self.wf(),
                n == token_ids@.len(),
                ids == token_ids.deep_view(),
                ids.len() == n,
                i <= n,
                tokens0 == old(self).miners_by_id@,
                idx0 == old(self).miners_per_owner@,
                *self == (Contract {
                    miners_by_id: self.miners_by_id,
                    miners_per_owner: self.miners_per_owner,
                    ..*old(self)
                }),
                spec_batch_transfer(
                    self.miners_by_id@,
                    self.miners_per_owner@,
                    sender_id@,
                    receiver_id@,
                    ids.skip(i as int),
                ) == spec_batch_transfer(tokens0, idx0, sender_id@, receiver_id@, ids),
            decreases n - i,
        {
            proof {
                assert(ids[i as int] == token_ids@[i as int]@);
                assert(ids.skip(i as int)[0] == ids[i as int]);
                assert(ids.skip(i as int).drop_first() =~= ids.skip(i as int + 1));
            }
            let tid = &token_ids[i];
            let ghost tokens_cur = self.miners_by_id@;
            let ghost idx_cur = self.miners_per_owner@;
            match self.internal_transfer(sender_id, receiver_id, tid, None) {
                Ok(_) => {},
                Err(e) => {
                    proof {
                        assert(spec_transfer_check(
                            tokens_cur,
                            sender_id@,
                            receiver_id@,
                            ids[i as int],
                            None::<Seq<char>>,
                        ) == Some(e));
                        assert(spec_batch_transfer(
                            tokens_cur,
                            idx_cur,
                            sender_id@,
                            receiver_id@,
                            ids.skip(i as int),
                        ) == (tokens_cur, idx_cur, Some(e)));
                        assert(spec_batch_transfer(tokens0, idx0, sender_id@, receiver_id@, ids)
                            == (tokens_cur, idx_cur, Some(e)));
                        assert(ids == token_ids.deep_view());
                    }
                    return Err(e);
                },
            }
            i = i + 1;
        }
        proof {
            assert(ids.skip(n as int) =~= Seq::<Seq<char>>::empty());
        }
        Ok(())
    }

    /// Moves `amount` copies of the power card `power_card` from
    /// `sender_id` to `receiver_id`. Fails with `InsufficientBalance`,
    /// changing nothing, when the sender holds fewer copies.
    pub fn batch_transfer_powers(
        &mut self,
        sender_id: &AccountId,
        receiver_id: &AccountId,
        power_card: &TokenMetadataId,
        amount: u32,
    ) -> (r: Result<(), Error>)
        requires
            old(self).wf(),
            amount >= 1,
            spec_card_balance(old(self).powers_per_owner@, sender_id@, power_card@) >= amount
                ==> spec_card_balance(
                spec_card_debit(old(self).powers_per_owner@, sender_id@, power_card@, amount),
                receiver_id@,
                power_card@,
            ) + amount <= u32::MAX,
        ensures
            final(self).wf(),
            spec_card_balance(old(self).powers_per_owner@, sender_id@, power_card@) < amount
                ==> r == Err::<(), Error>(Error::InsufficientBalance) && *final(self) == *old(
                self,
            ),
            spec_card_balance(old(self).powers_per_owner@, sender_id@, power_card@) >= amount
                ==> r == Ok::<(), Error>(()) && final(self).powers_per_owner@ == spec_card_credit(
                spec_card_debit(old(self).powers_per_owner@, sender_id@, power_card@, amount),
                receiver_id@,
                power_card@,
                amount,
            ) && *final(self) == (Contract {
                powers_per_owner: final(self).powers_per_owner,
                ..*old(self)
            }),
    {
        let ghost powers0 = self.powers_per_owner@;

        // Check that the sender holds enough copies before touching state.
        let enough = match self.powers_per_owner.get(sender_id) {
            Some(inner) => match inner.get(power_card) {
                Some(count) => *count >= amount,
                None => false,
            },
            None => false,
        };
        if !enough {
            return Err(Error::InsufficientBalance);
        }

        // Debit the sender, pruning emptied containers.
        let mut sender_map: StringMap<u32> = match self.powers_per_owner.take(sender_id) {
            Some(m) => m,
            None => vstd::pervasive::unreached(),
        };
        let count: u32 = match sender_map.take(power_card) {
            Some(c) => c,
            None => vstd::pervasive::unreached(),
        };
        let remain = count - amount;
        if remain > 0 {
            sender_map.insert(power_card.clone(), remain);
            self.powers_per_owner.insert(sender_id.clone(), sender_map);
            proof {
                assert(self.powers_per_owner@ =~~= spec_card_debit(
                    powers0,
                    sender_id@,
                    power_card@,
                    amount,
                ));
            }
        } else if sender_map.is_empty() {
            proof {
                assert(self.powers_per_owner@ =~~= spec_card_debit(
                    powers0,
                    sender_id@,
                    power_card@,
                    amount,
                ));
            }
        } else {
            self.powers_per_owner.insert(sender_id.clone(), sender_map);
            proof {
                assert(self.powers_per_owner@ =~~= spec_card_debit(
                    powers0,
                    sender_id@,
                    power_card@,
                    amount,
                ));
            }
        }
        let ghost powers1 = self.powers_per_owner@;

        // Credit the receiver, creating containers on demand.
        let mut recv_map: StringMap<u32> = match self.powers_per_owner.take(receiver_id) {
            Some(m) => m,
            None => StringMap::new(),
        };
        let prev: u32 = match recv_map.take(power_card) {
            Some(c) => c,
            None => 0,
        };
        recv_map.insert(power_card.clone(), prev + amount);
        self.powers_per_owner.insert(receiver_id.clone(), recv_map);
        proof {
            assert(self.powers_per_owner@ =~~= spec_card_credit(
                powers1,
                receiver_id@,
                power_card@,
                amount,
            ));
            let powers2 = self.powers_per_owner@;
            assert forall|o: Seq<char>, c: Seq<char>|
                powers2.contains_key(o) && #[trigger] powers2[o].contains_key(c) implies powers2[
                o
            ][c] >= 1 by {
                if o == receiver_id@ && c == power_card@ {
                } else if o == receiver_id@ {
                    if powers1.contains_key(o) && powers1[o].contains_key(c) {
                        lemma_card_count_positive(powers0, powers1, sender_id@, power_card@,
                            amount, o, c);
                    }
                } else {
                    assert(powers1.contains_key(o) && powers1[o].contains_key(c));
                    lemma_card_count_positive(powers0, powers1, sender_id@, power_card@, amount,
                        o, c);
                }
            }
            assert forall|o: Seq<char>| #[trigger]
                powers2.contains_key(o) implies powers2[o] != Map::<Seq<char>, u32>::empty() by {
                if o == receiver_id@ {
                    assert(powers2[o].contains_key(power_card@));
                } else {
                    assert(powers1.contains_key(o));
                }
            }
        }
        Ok(())
    }
}

/// A count surviving the sender debit is positive.
proof fn lemma_card_count_positive(
    powers0: Map<Seq<char>, Map<Seq<char>, u32>>,
    powers1: Map<Seq<char>, Map<Seq<char>, u32>>,
    sender: Seq<char>,
    card: Seq<char>,
    amount: u32,
    o: Seq<char>,
    c: Seq<char>,
)
    requires
        forall|a: Seq<char>, b: Seq<char>|
            powers0.contains_key(a) && #[trigger] powers0[a].contains_key(b) ==> powers0[a][b]
                >= 1,
        powers0.contains_key(sender),
        powers0[sender].contains_key(card),
        powers0[sender][card] >= amount,
        amount >= 1,
        powers1 == spec_card_debit(powers0, sender, card, amount),
        powers1.contains_key(o),
        powers1[o].contains_key(c),
    ensures
        powers1[o][c] >= 1,
{
    if o == sender {
        if c == card {
            assert(powers1[o][c] == powers0[sender][card] - amount);
        } else {
            assert(powers1[o][c] == powers0[o][c]);
        }
    } else {
        assert(powers1[o][c] == powers0[o][c]);
    }
}

} // verus!

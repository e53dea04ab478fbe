//! The two-level owner index: owner account to metadata-type id to set of
//! token ids. `add` and `remove` keep the index in step with the primary
//! token store; empty leaf sets and empty owner maps are pruned at once.

use vstd::prelude::*;
use vstd::pervasive::unreached;

use crate::smap::{StringMap, WellFormed};
use crate::sset::{lemma_remove_seq_value_props, remove_seq_value, seq_distinct, StringSet};
use crate::state::{index_consistent_maps, index_has_in, index_pruned_maps, Contract};
use crate::types::{AccountId, Error, MinerMetadataId, TokenId, TokenView};

verus! {

/// The owner index after recording that token `id` of type `m` belongs to
/// owner `o`; missing intermediate containers are created on demand.
pub open spec fn spec_index_add(
    idx: Map<Seq<char>, Map<Seq<char>, Seq<Seq<char>>>>,
    o: Seq<char>,
    m: Seq<char>,
    id: Seq<char>,
) -> Map<Seq<char>, Map<Seq<char>, Seq<Seq<char>>>> {
    let inner = if idx.contains_key(o) {
        idx[o]
    } else {
        Map::empty()
    };
    let leaf = if inner.contains_key(m) {
        inner[m]
    } else {
        Seq::empty()
    };
    let leaf2 = if leaf.contains(id) {
        leaf
    } else {
        leaf.push(id)
    };
    idx.insert(o, inner.insert(m, leaf2))
}

/// The owner index after dropping token `id` of type `m` from owner `o`;
/// `None` when the index has no such entry (an inconsistency between the
/// index and the token store). Containers that become empty are pruned.
pub open spec fn spec_index_remove(
    idx: Map<Seq<char>, Map<Seq<char>, Seq<Seq<char>>>>,
    o: Seq<char>,
    m: Seq<char>,
    id: Seq<char>,
) -> Option<Map<Seq<char>, Map<Seq<char>, Seq<Seq<char>>>>> {
    if !index_has_in(idx, o, m, id) {
        None
    } else {
        let leaf = remove_seq_value(idx[o][m], id);
        let inner = if leaf.len() == 0 {
            idx[o].remove(m)
        } else {
            idx[o].insert(m, leaf)
        };
        if inner == Map::<Seq<char>, Seq<Seq<char>>>::empty() {
            Some(idx.remove(o))
        } else {
            Some(idx.insert(o, inner))
        }
    }
}

/// Every leaf set of the owner index is duplicate-free.
pub open spec fn index_sets_distinct_maps(
    idx: Map<Seq<char>, Map<Seq<char>, Seq<Seq<char>>>>,
) -> bool {
    forall|o: Seq<char>, m: Seq<char>|
        idx.contains_key(o) && #[trigger] idx[o].contains_key(m) ==> seq_distinct(idx[o][m])
}

/// Removing an existing token from the index keeps it consistent with the
/// token store without that token, pruned, and duplicate-free.
pub proof fn lemma_index_remove_token(
    tokens: Map<Seq<char>, TokenView>,
    idx: Map<Seq<char>, Map<Seq<char>, Seq<Seq<char>>>>,
    tid: Seq<char>,
)
    requires
        index_consistent_maps(tokens, idx),
        index_pruned_maps(idx),
        index_sets_distinct_maps(idx),
        tokens.contains_key(tid),
    ensures
        ({
            let o = tokens[tid].owner_id;
            let m = tokens[tid].miner_metadata_id;
            &&& spec_index_remove(idx, o, m, tid) is Some
            &&& index_consistent_maps(tokens.remove(tid), spec_index_remove(idx, o, m, tid)->Some_0)
            &&& index_pruned_maps(spec_index_remove(idx, o, m, tid)->Some_0)
            &&& index_sets_distinct_maps(spec_index_remove(idx, o, m, tid)->Some_0)
        }),
{
    let o = tokens[tid].owner_id;
    let m = tokens[tid].miner_metadata_id;
    assert(index_has_in(idx, o, m, tid));
    let leaf = remove_seq_value(idx[o][m], tid);
    lemma_remove_seq_value_props(idx[o][m], tid);
    let inner = if leaf.len() == 0 {
        idx[o].remove(m)
    } else {
        idx[o].insert(m, leaf)
    };
    let idx2 = spec_index_remove(idx, o, m, tid)->Some_0;
    let tokens2 = tokens.remove(tid);

    // Direction 1: every remaining token keeps its index entry.
    assert forall|id: Seq<char>| #[trigger]
        tokens2.contains_key(id) implies index_has_in(
        idx2,
        tokens2[id].owner_id,
        tokens2[id].miner_metadata_id,
        id,
    ) by {
        let oi = tokens[id].owner_id;
        let mi = tokens[id].miner_metadata_id;
        assert(index_has_in(idx, oi, mi, id));
        assert(id != tid);
        if oi == o {
            if mi == m {
                assert(leaf.contains(id));
                assert(leaf.len() > 0);
                assert(inner.contains_key(mi) && inner[mi].contains(id));
                assert(inner != Map::<Seq<char>, Seq<Seq<char>>>::empty());
            } else {
                assert(inner.contains_key(mi) && inner[mi].contains(id));
                assert(inner != Map::<Seq<char>, Seq<Seq<char>>>::empty());
            }
        }
    }

    // Direction 2: everything still indexed is a remaining token.
    assert forall|o2: Seq<char>, m2: Seq<char>, id2: Seq<char>|
        idx2.contains_key(o2) && idx2[o2].contains_key(m2) && #[trigger] idx2[o2][m2].contains(
            id2,
        ) implies tokens2.contains_key(id2) && tokens2[id2].owner_id == o2
        && tokens2[id2].miner_metadata_id == m2 by {
        if o2 == o && idx2.contains_key(o) {
            if m2 == m {
                assert(idx2[o2][m2] == leaf);
                assert(idx[o][m].contains(id2) && id2 != tid);
            } else {
                assert(idx2[o2][m2] == idx[o2][m2]);
            }
        } else {
            assert(idx2[o2][m2] == idx[o2][m2]);
        }
        assert(idx[o2][m2].contains(id2));
        assert(id2 != tid) by {
            if id2 == tid {
                // The old index holds `tid` only under its owner and type.
                assert(tokens[id2].owner_id == o2 && tokens[id2].miner_metadata_id == m2);
                assert(o2 == o && m2 == m);
                assert(idx2[o2][m2] == leaf);
            }
        }
    }

    // Pruning and distinctness.
    assert forall|o2: Seq<char>| #[trigger]
        idx2.contains_key(o2) implies idx2[o2] != Map::<Seq<char>, Seq<Seq<char>>>::empty() by {
        if o2 == o && idx2.contains_key(o) {
            assert(idx2[o] == inner);
        } else {
            assert(idx2[o2] == idx[o2]);
            assert(idx[o2] != Map::<Seq<char>, Seq<Seq<char>>>::empty());
        }
    }
    assert forall|o2: Seq<char>, m2: Seq<char>|
        idx2.contains_key(o2) && #[trigger] idx2[o2].contains_key(m2) implies idx2[o2][m2].len()
        > 0 && seq_distinct(idx2[o2][m2]) by {
        if o2 == o && idx2.contains_key(o) {
            if m2 == m {
                assert(idx2[o2][m2] == leaf);
            } else {
                assert(idx2[o2][m2] == idx[o2][m2]);
            }
        } else {
            assert(idx2[o2][m2] == idx[o2][m2]);
        }
    }
}

/// Adding a token that is not yet stored gives an index consistent with the
/// token store extended by it, still pruned and duplicate-free.
pub proof fn lemma_index_add_token(
    tokens: Map<Seq<char>, TokenView>,
    idx: Map<Seq<char>, Map<Seq<char>, Seq<Seq<char>>>>,
    tid: Seq<char>,
    t: TokenView,
)
    requires
        index_consistent_maps(tokens, idx),
        index_pruned_maps(idx),
        index_sets_distinct_maps(idx),
        !tokens.contains_key(tid),
    ensures
        ({
            let idx2 = spec_index_add(idx, t.owner_id, t.miner_metadata_id, tid);
            &&& index_consistent_maps(tokens.insert(tid, t), idx2)
            &&& index_pruned_maps(idx2)
            &&& index_sets_distinct_maps(idx2)
        }),
{
    let o = t.owner_id;
    let m = t.miner_metadata_id;
    let inner = if idx.contains_key(o) {
        idx[o]
    } else {
        Map::<Seq<char>, Seq<Seq<char>>>::empty()
    };
    let leaf = if inner.contains_key(m) {
        inner[m]
    } else {
        Seq::<Seq<char>>::empty()
    };
    // `tid` is indexed nowhere, else it would be a stored token.
    assert(!leaf.contains(tid));
    let leaf2 = leaf.push(tid);
    let idx2 = spec_index_add(idx, o, m, tid);
    let tokens2 = tokens.insert(tid, t);
    assert(idx2 == idx.insert(o, inner.insert(m, leaf2)));

    assert(leaf2.contains(tid)) by {
        assert(leaf2[leaf.len() as int] == tid);
    }
    assert forall|y: Seq<char>| #[trigger] leaf2.contains(y) implies (leaf.contains(y) || y
        == tid) by {
        let i = choose|i: int| 0 <= i < leaf2.len() && leaf2[i] == y;
        if i < leaf.len() {
            assert(leaf[i] == y);
        }
    }
    assert(seq_distinct(leaf2)) by {
        assert forall|i: int, j: int| 0 <= i < j < leaf2.len() implies leaf2[i] != leaf2[j] by {
            if j < leaf.len() {
                assert(leaf2[i] == leaf[i] && leaf2[j] == leaf[j]);
            } else {
                assert(leaf2[j] == tid && leaf2[i] == leaf[i]);
                assert(leaf.contains(leaf[i]));
            }
        }
    }

    // Direction 1.
    assert forall|id: Seq<char>| #[trigger]
        tokens2.contains_key(id) implies index_has_in(
        idx2,
        tokens2[id].owner_id,
        tokens2[id].miner_metadata_id,
        id,
    ) by {
        if id == tid {
            assert(idx2[o].contains_key(m) && idx2[o][m].contains(tid));
        } else {
            let oi = tokens[id].owner_id;
            let mi = tokens[id].miner_metadata_id;
            assert(index_has_in(idx, oi, mi, id));
            if oi == o {
                if mi == m {
                    assert(leaf.contains(id));
                    assert(leaf2.contains(id)) by {
                        let i = choose|i: int| 0 <= i < leaf.len() && leaf[i] == id;
                        assert(leaf2[i] == id);
                    }
                }
            }
        }
    }

    // Direction 2.
    assert forall|o2: Seq<char>, m2: Seq<char>, id2: Seq<char>|
        idx2.contains_key(o2) && idx2[o2].contains_key(m2) && #[trigger] idx2[o2][m2].contains(
            id2,
        ) implies tokens2.contains_key(id2) && tokens2[id2].owner_id == o2
        && tokens2[id2].miner_metadata_id == m2 by {
        if o2 == o {
            if m2 == m {
                assert(idx2[o2][m2] == leaf2);
                if id2 == tid {
                } else {
                    assert(leaf.contains(id2));
                    assert(idx.contains_key(o) && idx[o].contains_key(m) && idx[o][m].contains(
                        id2,
                    ));
                }
            } else {
                assert(idx2[o2][m2] == inner[m2]);
                assert(idx.contains_key(o) && idx[o].contains_key(m2) && idx[o][m2].contains(
                    id2,
                ));
            }
        } else {
            assert(idx2[o2][m2] == idx[o2][m2]);
        }
    }

    // Pruning and distinctness.
    assert forall|o2: Seq<char>| #[trigger]
        idx2.contains_key(o2) implies idx2[o2] != Map::<Seq<char>, Seq<Seq<char>>>::empty() by {
        if o2 == o {
            assert(idx2[o].contains_key(m));
        } else {
            assert(idx2[o2] == idx[o2]);
        }
    }
    assert forall|o2: Seq<char>, m2: Seq<char>|
        idx2.contains_key(o2) && #[trigger] idx2[o2].contains_key(m2) implies idx2[o2][m2].len()
        > 0 && seq_distinct(idx2[o2][m2]) by {
        if o2 == o {
            if m2 == m {
                assert(idx2[o2][m2] == leaf2);
            } else {
                assert(idx2[o2][m2] == inner[m2]);
                assert(idx.contains_key(o) && idx[o].contains_key(m2));
            }
        } else {
            assert(idx2[o2][m2] == idx[o2][m2]);
        }
    }
}

impl Contract {
    /// Records token `token_id` of type `miner_metadata_id` under
    /// `account_id` in the owner index, creating containers on demand.
    /// Keeping the primary token record in step is the caller's concern.
    pub fn internal_add_token_to_owner(
        &mut self,
        account_id: &AccountId,
        miner_metadata_id: &MinerMetadataId,
        token_id: &TokenId,
    )
        requires
            old(self).miners_per_owner.wf(),
        ensures
            final(self).miners_per_owner.wf(),
            final(self).miners_per_owner@ == spec_index_add(
                old(self).miners_per_owner@,
                account_id@,
                miner_metadata_id@,
                token_id@,
            ),
            *final(self) == (Contract {
                miners_per_owner: final(self).miners_per_owner,
                ..*old(self)
            }),
    {
        let ghost idx = self.miners_per_owner@;
        let mut inner: StringMap<StringSet> = match self.miners_per_owner.take(account_id) {
            Some(x) => x,
            None => StringMap::new(),
        };
        let ghost inner0 = inner@;
        let mut leaf: StringSet = match inner.take(miner_metadata_id) {
            Some(s) => s,
            None => StringSet::new(),
        };
        let ghost leaf0 = leaf@;
        leaf.insert(token_id.clone());
        inner.insert(miner_metadata_id.clone(), leaf);
        self.miners_per_owner.insert(account_id.clone(), inner);
        proof {
            let spec_inner = if idx.contains_key(account_id@) {
                idx[account_id@]
            } else {
                Map::<Seq<char>, Seq<Seq<char>>>::empty()
            };
            assert(inner0 =~= spec_inner);
            let spec_leaf = if spec_inner.contains_key(miner_metadata_id@) {
                spec_inner[miner_metadata_id@]
            } else {
                Seq::<Seq<char>>::empty()
            };
            assert(leaf0 =~= spec_leaf);
            let leaf2 = if spec_leaf.contains(token_id@) {
                spec_leaf
            } else {
                spec_leaf.push(token_id@)
            };
            assert(inner@ =~= spec_inner.insert(miner_metadata_id@, leaf2));
            assert(self.miners_per_owner@ =~= spec_index_add(
                idx,
                account_id@,
                miner_metadata_id@,
                token_id@,
            ));
        }
    }

    /// Drops token `token_id` of type `miner_metadata_id` from
    /// `account_id`'s index entry, pruning containers that become empty;
    /// fails with `InconsistentIndex`, leaving the state unchanged, when the
    /// index has no such entry.
    pub fn internal_remove_token_from_owner(
        &mut self,
        account_id: &AccountId,
        miner_metadata_id: &MinerMetadataId,
        token_id: &TokenId,
    ) -> (r: Result<(), Error>)
        requires
            old(self).miners_per_owner.wf(),
        ensures
            final(self).miners_per_owner.wf(),
            match spec_index_remove(
                old(self).miners_per_owner@,
                account_id@,
                miner_metadata_id@,
                token_id@,
            ) {
                Some(idx2) => r == Ok::<(), Error>(()) && final(self).miners_per_owner@ == idx2,
                None => r == Err::<(), Error>(Error::InconsistentIndex)
                    && *final(self) == *old(self),
            },
            *final(self) == (Contract {
                miners_per_owner: final(self).miners_per_owner,
                ..*old(self)
            }),
    {
        let ghost idx = self.miners_per_owner@;
        let present = match self.miners_per_owner.get(account_id) {
            Some(inner) => match inner.get(miner_metadata_id) {
                Some(leaf) => leaf.contains(token_id),
                None => false,
            },
            None => false,
        };
        if !present {
            return Err(Error::InconsistentIndex);
        }
        let mut inner: StringMap<StringSet> = match self.miners_per_owner.take(account_id) {
            Some(x) => x,
            None => unreached(),
        };
        let ghost inner0 = inner@;
        let mut leaf: StringSet = match inner.take(miner_metadata_id) {
            Some(s) => s,
            None => unreached(),
        };
        let _ = leaf.remove(token_id);
        let ghost leaf2 = leaf@;
        if !leaf.is_empty() {
            inner.insert(miner_metadata_id.clone(), leaf);
            proof {
                assert(inner@ =~= idx[account_id@].insert(miner_metadata_id@, leaf2));
            }
        } else {
            proof {
                assert(inner@ =~= idx[account_id@].remove(miner_metadata_id@));
            }
        }
        if inner.is_empty() {
            proof {
                assert(self.miners_per_owner@ =~= idx.remove(account_id@));
            }
        } else {
            self.miners_per_owner.insert(account_id.clone(), inner);
            proof {
                let spec_inner = {
                    let l = remove_seq_value(idx[account_id@][miner_metadata_id@], token_id@);
                    if l.len() == 0 {
                        idx[account_id@].remove(miner_metadata_id@)
                    } else {
                        idx[account_id@].insert(miner_metadata_id@, l)
                    }
                };
                assert(self.miners_per_owner@ =~= idx.insert(account_id@, spec_inner));
            }
        }
        Ok(())
    }
}

} // verus!

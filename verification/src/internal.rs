//! Access guards and storage-cost accounting helpers for the approval
//! sets. The host ledger charges storage per byte; the embedder performs
//! the actual refund transfer with the amount computed here.

use vstd::prelude::*;
use vstd::string::StrSliceExecFns;

use crate::sset::StringSet;
use crate::state::Contract;
use crate::types::{AccountId, Balance, Error};

verus! {

/// Price per byte of storage, in the smallest balance unit.
pub const STORAGE_PRICE_PER_BYTE: Balance = 10_000_000_000_000_000_000;

/// The storage bytes a set of approved account ids occupies: each account
/// id takes its own length plus four bytes recording that length.
pub open spec fn spec_approved_bytes(ids: Seq<Seq<char>>) -> int
    decreases ids.len(),
{
    if ids.len() == 0 {
        0
    } else {
        spec_approved_bytes(ids.drop_last()) + ids.last().len() + 4
    }
}

/// The storage bytes recording one approved account id: the id itself
/// plus four bytes for its length. Account ids are plain ASCII names, so
/// characters and bytes agree.
pub fn bytes_for_approved_account_id(account_id: &AccountId) -> (r: u64)
    requires
        account_id@.len() + 4 <= u64::MAX,
    ensures
        r == account_id@.len() + 4,
{
    account_id.as_str().unicode_len() as u64 + 4
}

/// The balance released when a token's approval set is cleared: the bytes
/// of every approved account id, at the ledger's storage price. The
/// embedder transfers this amount back to the previous owner.
pub fn refund_approved_account_ids(approved_account_ids: &StringSet) -> (r: Balance)
    requires
        spec_approved_bytes(approved_account_ids@) <= u64::MAX,
        spec_approved_bytes(approved_account_ids@) * STORAGE_PRICE_PER_BYTE <= u128::MAX,
    ensures
        r == spec_approved_bytes(approved_account_ids@) * STORAGE_PRICE_PER_BYTE,
{
    let ghost ids = approved_account_ids@;
    let n = approved_account_ids.len();
    let mut storage_released: u64 = 0;
    let mut i: usize = 0;
    proof {
        assert(ids.take(0) =~= Seq::<Seq<char>>::empty());
    }
    while i < n
        invariant
            n == ids.len(),
            ids == approved_account_ids@,
            i <= n,
            storage_released as int == spec_approved_bytes(ids.take(i as int)),
            spec_approved_bytes(ids) <= u64::MAX,
        decreases n - i,
    {
        proof {
            assert(ids.take(i as int + 1).drop_last() =~= ids.take(i as int));
            assert(ids.take(i as int + 1).last() == ids[i as int]);
            lemma_approved_bytes_bound(ids, i as int + 1);
        }
        let id = approved_account_ids.get(i);
        storage_released = storage_released + (id.as_str().unicode_len() as u64 + 4);
        i = i + 1;
    }
    proof {
        assert(ids.take(n as int) =~= ids);
    }
    (storage_released as Balance) * STORAGE_PRICE_PER_BYTE
}

/// Every prefix of the byte count stays within the total.
proof fn lemma_approved_bytes_bound(ids: Seq<Seq<char>>, k: int)
    requires
        0 <= k <= ids.len(),
    ensures
        spec_approved_bytes(ids.take(k)) <= spec_approved_bytes(ids),
        spec_approved_bytes(ids.take(k)) >= 0,
    decreases ids.len() - k,
{
    lemma_approved_bytes_nonneg(ids.take(k));
    if k == ids.len() {
        assert(ids.take(k) =~= ids);
    } else {
        assert(ids.take(k + 1).drop_last() =~= ids.take(k));
        assert(ids.take(k + 1).last() == ids[k]);
        lemma_approved_bytes_bound(ids, k + 1);
    }
}

/// The byte count is never negative.
proof fn lemma_approved_bytes_nonneg(ids: Seq<Seq<char>>)
    ensures
        spec_approved_bytes(ids) >= 0,
    decreases ids.len(),
{
    if ids.len() > 0 {
        lemma_approved_bytes_nonneg(ids.drop_last());
    }
}

impl Contract {
    /// The settlement access guard: only the designated contract owner may
    /// trigger a settlement.
    pub fn assert_owner(&self, caller: &AccountId) -> (r: Result<(), Error>)
        ensures
            caller@ == self.owner_id@ ==> r == Ok::<(), Error>(()),
            caller@ != self.owner_id@ ==> r == Err::<(), Error>(Error::NotAuthorized),
    {
        if *caller == self.owner_id {
            Ok(())
        } else {
            Err(Error::NotAuthorized)
        }
    }
}

} // verus!

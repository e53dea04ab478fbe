//! Mining-pool records. Pooled mining is reserved surface: the settlement
//! pipeline keeps an explicit no-op step for it, and these records keep the
//! storage schema stable.

use vstd::prelude::*;
use vstd::arithmetic::div_mod::{lemma_div_denominator, lemma_fundamental_div_mod,
    lemma_fundamental_div_mod_converse_div, lemma_mod_division_less_than_divisor,
    lemma_multiply_divide_lt};
use vstd::arithmetic::mul::{lemma_mul_inequality, lemma_mul_strict_inequality};
use vstd::pervasive::unreached;

use crate::ledger::{lemma_sum_drop_first, lemma_sum_nonneg, sum_thash};
use crate::smap::WellFormed;
use crate::sset::StringSet;
use crate::state::{lemma_index_consistent_update_same_owner, Contract};
use crate::types::{AccountId, BlockHeight, Error, MinerMetadata, MiningEpoch, PoolStatus,
    PowerSwitch, Thash, TokenId, TokenView, PW_OFF, PW_ON, ST_NORMAL};

verus! {

/// The first 16 bytes of `bytes` read as a little-endian unsigned integer:
/// `bytes[0]` is the least significant byte.
pub open spec fn spec_le_u128(bytes: Seq<u8>, k: int) -> int
    decreases k,
{
    if k <= 0 {
        0
    } else {
        spec_le_u128(bytes, k - 1) * 256 + bytes[16 - k]
    }
}

/// 256 to the power `k`.
pub open spec fn pow256(k: int) -> int
    decreases k,
{
    if k <= 0 {
        1
    } else {
        256 * pow256(k - 1)
    }
}

/// The random draw: the seed scaled into `[0, total)` by multiplying with
/// the total and dividing by one more than the largest 128-bit seed value.
pub open spec fn spec_random_value(total: u32, bytes: Seq<u8>) -> int {
    (total * spec_le_u128(bytes, 16)) / 0x100000000000000000000000000000000int
}

/// The weighted lottery by cumulative range: walking the ledger entries in
/// their stable enumeration order, the first owner whose running total of
/// hash-power exceeds the draw produces the block; when no owner does, the
/// fallback account is selected.
pub open spec fn spec_producer(
    entries: Seq<(Seq<char>, u32)>,
    value: int,
    fallback: Seq<char>,
) -> Seq<char>
    decreases entries.len(),
{
    if entries.len() == 0 {
        fallback
    } else if entries[0].1 > value {
        entries[0].0
    } else {
        spec_producer(entries.drop_first(), value - entries[0].1, fallback)
    }
}

/// A draw at or beyond the whole sum of hash-power falls through to the
/// fallback account.
pub proof fn lemma_producer_fallback(
    entries: Seq<(Seq<char>, u32)>,
    value: int,
    fallback: Seq<char>,
)
    requires
        value >= sum_thash(entries),
    ensures
        spec_producer(entries, value, fallback) == fallback,
    decreases entries.len(),
{
    if entries.len() > 0 {
        lemma_sum_drop_first(entries);
        lemma_sum_nonneg(entries.drop_first());
        lemma_producer_fallback(entries.drop_first(), value - entries[0].1, fallback);
    }
}

impl Contract {
    /// Interprets the first sixteen bytes of the host-supplied random seed
    /// as a little-endian unsigned integer and scales it into
    /// `[0, current_total_thash)`; zero when no hash-power participates.
    pub fn make_random_value(&self, random_seed: &Vec<u8>) -> (value: Thash)
        requires
            self.hash_ledger.wf(),
            random_seed@.len() >= 16,
        ensures
            value as int == spec_random_value(self.hash_ledger.spec_total(), random_seed@),
            self.hash_ledger.spec_total() > 0 ==> value < self.hash_ledger.spec_total(),
            self.hash_ledger.spec_total() == 0 ==> value == 0,
    {
        let total = self.hash_ledger.total();

        // Read the low 16 seed bytes, most significant byte first.
        let mut acc: u128 = 0;
        let mut i: usize = 0;
        while i < 16
            invariant
                random_seed@.len() >= 16,
                i <= 16,
                acc as int == spec_le_u128(random_seed@, i as int),
                acc < pow256(i as int),
            decreases 16 - i,
        {
            proof {
                assert(pow256(i as int + 1) == 256 * pow256(i as int));
                lemma_pow256_value();
                lemma_pow256_increases(i as int + 1, 16);
            }
            let b = random_seed[15 - i];
            acc = acc * 256 + (b as u128);
            i = i + 1;
        }
        let ghost rand = acc as int;
        proof {
            lemma_pow256_value();
        }

        // value = total * rand / 2^128, computed in 128-bit halves.
        let two64: u128 = 0x10000000000000000;
        let hi = acc / two64;
        let lo = acc % two64;
        proof {
            lemma_fundamental_div_mod(rand, two64 as int);
            lemma_mod_division_less_than_divisor(rand, two64 as int);
            assert(hi < two64) by {
                assert(two64 as int * two64 as int == 0x100000000000000000000000000000000int);
                lemma_multiply_divide_lt(rand, two64 as int, two64 as int);
            }
            assert(total as int * hi as int <= u32::MAX as int * u64::MAX as int) by {
                lemma_mul_le_pair(total as int, u32::MAX as int, hi as int, u64::MAX as int);
            }
            assert(total as int * lo as int <= u32::MAX as int * u64::MAX as int) by {
                lemma_mul_le_pair(total as int, u32::MAX as int, lo as int, u64::MAX as int);
            }
        }
        let a: u128 = (total as u128) * hi;
        let b: u128 = (total as u128) * lo;
        let q: u128 = a + b / two64;
        let value128: u128 = q / two64;

        proof {
            let x = total as int * rand;
            let d = two64 as int;
            assert(x == a as int * d + b as int) by (nonlinear_arith)
                requires
                    rand == hi as int * d + lo as int,
                    a as int == total as int * hi as int,
                    b as int == total as int * lo as int,
                    x == total as int * rand,
            ;
            let qb = b as int / d;
            let rb = b as int % d;
            lemma_fundamental_div_mod(b as int, d);
            lemma_mod_division_less_than_divisor(b as int, d);
            assert(x == (a as int + qb) * d + rb) by (nonlinear_arith)
                requires
                    x == a as int * d + b as int,
                    b as int == qb * d + rb,
            ;
            lemma_fundamental_div_mod_converse_div(x, d, a as int + qb, rb);
            assert(q as int == x / d);
            lemma_div_denominator(x, d, d);
            assert(d * d == 0x100000000000000000000000000000000int);
            assert(value128 as int == x / 0x100000000000000000000000000000000int);

            if total > 0 {
                assert(x < total as int * 0x100000000000000000000000000000000int) by {
                    lemma_mul_strict_inequality(
                        rand,
                        0x100000000000000000000000000000000int,
                        total as int,
                    );
                }
                assert(value128 < total) by {
                    assert(total as int * 0x100000000000000000000000000000000int
                        == 0x100000000000000000000000000000000int * total as int)
                        by (nonlinear_arith);
                    lemma_multiply_divide_lt(
                        x,
                        0x100000000000000000000000000000000int,
                        total as int,
                    );
                }
            } else {
                assert(x == 0) by (nonlinear_arith)
                    requires
                        x == total as int * rand,
                        total as int == 0,
                ;
                assert(x / 0x100000000000000000000000000000000int == 0);
            }
        }
        value128 as u32
    }

    /// Walks the hash-power ledger in its stable enumeration order and
    /// returns the first owner whose cumulative hash-power exceeds `value`;
    /// the contract owner is the fallback when no owner does, in particular
    /// whenever no hash-power participates at all.
    pub fn find_block_producer(&self, value: Thash) -> (producer: AccountId)
        requires
            self.hash_ledger.wf(),
        ensures
            producer@ == spec_producer(self.hash_ledger@, value as int, self.owner_id@),
            value as int >= sum_thash(self.hash_ledger@) ==> producer@ == self.owner_id@,
    {
        proof {
            if value as int >= sum_thash(self.hash_ledger@) {
                lemma_producer_fallback(self.hash_ledger@, value as int, self.owner_id@);
            }
        }
        let ghost entries = self.hash_ledger@;
        let n = self.hash_ledger.entity_count();
        let total = self.hash_ledger.total();
        let mut border: Thash = 0;
        let mut i: usize = 0;
        proof {
            assert(entries.skip(0) =~= entries);
        }
        while i < n
            invariant
                self.hash_ledger.wf(),
                entries == self.hash_ledger@,
                n == entries.len(),
                i <= n,
                total == self.hash_ledger.spec_total(),
                total as int == sum_thash(entries),
                border as int + sum_thash(entries.skip(i as int)) == total as int,
                spec_producer(entries, value as int, self.owner_id@) == spec_producer(
                    entries.skip(i as int),
                    value as int - border as int,
                    self.owner_id@,
                ),
            decreases n - i,
        {
            let (entity, thash) = self.hash_ledger.entity_at(i);
            proof {
                lemma_sum_drop_first(entries.skip(i as int));
                assert(entries.skip(i as int)[0] == entries[i as int]);
                assert(entries.skip(i as int).drop_first() =~= entries.skip(i as int + 1));
                lemma_sum_nonneg(entries.skip(i as int + 1));
            }
            border = border + thash;
            if border > value {
                proof {
                    assert(spec_producer(entries, value as int, self.owner_id@)
                        == entries[i as int].0);
                    if value as int >= sum_thash(entries) {
                        assert(border as int <= total as int);
                        assert(false);
                    }
                }
                return entity.clone();
            }
            i = i + 1;
        }
        proof {
            assert(entries.skip(n as int) =~= Seq::<(Seq<char>, u32)>::empty());
        }
        self.owner_id.clone()
    }

    /// How much power a miner of type `metadata` consumes when switched on
    /// now, and the epoch at which that charge runs out.
    pub fn get_power_consume(&self, power_left: u32, metadata: &MinerMetadata) -> (r: (
        u32,
        MiningEpoch,
    ))
        requires
            metadata.w >= 1,
            self.current_mining_epoch + power_left / metadata.w <= u32::MAX,
        ensures
            r.0 == power_left - power_left % metadata.w,
            r.1 == self.current_mining_epoch + power_left / metadata.w,
    {
        proof {
            lemma_div_mul_le(power_left as int, metadata.w as int);
        }
        let hours = power_left / metadata.w;
        (hours * metadata.w, self.current_mining_epoch + hours)
    }

    /// The power that stays on the miner when switched on now (what does
    /// not make a whole epoch), and the epoch at which the rest runs out.
    pub fn get_power_endline(&self, power_left: u32, metadata: &MinerMetadata) -> (r: (
        u32,
        MiningEpoch,
    ))
        requires
            metadata.w >= 1,
            self.current_mining_epoch + power_left / metadata.w <= u32::MAX,
        ensures
            r.0 == power_left % metadata.w,
            r.1 == self.current_mining_epoch + power_left / metadata.w,
    {
        proof {
            lemma_div_mul_le(power_left as int, metadata.w as int);
            lemma_fundamental_div_mod(power_left as int, metadata.w as int);
        }
        let hours = power_left / metadata.w;
        let remain = power_left - hours * metadata.w;
        (remain, self.current_mining_epoch + hours)
    }

    /// The power refunded for `epoch_diff` whole epochs that a miner will
    /// not run after being switched off.
    pub fn get_power_refund(&self, epoch_diff: u32, metadata: &MinerMetadata) -> (r: u32)
        requires
            epoch_diff * metadata.w <= u32::MAX,
        ensures
            r == epoch_diff * metadata.w,
    {
        let hours = epoch_diff;
        hours * metadata.w
    }
}

/// The sixteenth power of 256 is one more than the largest 128-bit value.
proof fn lemma_pow256_value()
    ensures
        pow256(16) == 0x100000000000000000000000000000000int,
{
    reveal_with_fuel(pow256, 17);
}

/// `pow256` is positive.
proof fn lemma_pow256_pos(k: int)
    ensures
        pow256(k) >= 1,
    decreases k,
{
    if k > 0 {
        lemma_pow256_pos(k - 1);
    }
}

/// `pow256` grows with its exponent.
proof fn lemma_pow256_increases(a: int, b: int)
    requires
        0 <= a <= b,
    ensures
        pow256(a) <= pow256(b),
        pow256(a) >= 1,
    decreases b - a,
{
    lemma_pow256_pos(a);
    if a < b {
        lemma_pow256_increases(a, b - 1);
        assert(pow256(b) == 256 * pow256(b - 1));
    }
}

/// Multiplying component-wise bounds multiplies the bounds.
proof fn lemma_mul_le_pair(x: int, xb: int, y: int, yb: int)
    requires
        0 <= x <= xb,
        0 <= y <= yb,
    ensures
        x * y <= xb * yb,
{
    lemma_mul_inequality(x, xb, y);
    lemma_mul_inequality(y, yb, xb);
    assert(x * y == y * x) by (nonlinear_arith);
    assert(xb * y == y * xb) by (nonlinear_arith);
}

/// The whole hours times the rate never exceed the power they came from.
proof fn lemma_div_mul_le(x: int, d: int)
    requires
        x >= 0,
        d >= 1,
    ensures
        (x / d) * d <= x,
        x - (x / d) * d == x % d,
        x / d >= 0,
{
    lemma_fundamental_div_mod(x, d);
    vstd::arithmetic::div_mod::lemma_div_pos_is_pos(x, d);
    lemma_mod_division_less_than_divisor(x, d);
    assert(x == d * (x / d) + x % d);
    assert(d * (x / d) == (x / d) * d) by (nonlinear_arith);
}

/// The parts of the contract state that power operations touch: the token
/// store, the hash-power ledger entries with their total, and the power
/// events.
pub ghost struct MiningView {
    pub tokens: Map<Seq<char>, TokenView>,
    pub entities: Seq<(Seq<char>, u32)>,
    pub total: u32,
    pub events: Map<u32, Seq<Seq<char>>>,
}

/// A token right after powering on: the switch is on, whole epochs of power
/// are consumed, the remainder stays, and the deadline records when the
/// consumed charge runs out.
pub open spec fn spec_powered_on_token(t: TokenView, epoch: u32, w: u32) -> TokenView {
    TokenView {
        switch: PW_ON,
        power_left: (t.power_left % w) as u32,
        power_deadline: (epoch + t.power_left / w) as u32,
        ..t
    }
}

/// A token right after powering off: the switch is off and the whole epochs
/// it will no longer run are refunded at its own rate.
pub open spec fn spec_powered_off_token(t: TokenView, epoch: u32, w: u32) -> TokenView {
    TokenView {
        switch: PW_OFF,
        power_left: (t.power_left + (t.power_deadline - epoch) * w) as u32,
        ..t
    }
}

/// What `power_on` does: reject a missing token, reject a caller who is not
/// both owner and operator, ignore a malfunctioning or already running
/// miner, reject a charge below one epoch of runtime, and otherwise consume
/// whole epochs of power, credit the owner's hash-power and schedule the
/// power event at the new deadline.
pub open spec fn spec_power_on(
    v: MiningView,
    types: Map<Seq<char>, MinerMetadata>,
    epoch: u32,
    caller: Seq<char>,
    tid: Seq<char>,
) -> (MiningView, Option<Error>) {
    if !v.tokens.contains_key(tid) {
        (v, Some(Error::NotFound))
    } else {
        let t = v.tokens[tid];
        if t.owner_id != caller || t.operator != t.owner_id {
            (v, Some(Error::Forbidden))
        } else if t.status != ST_NORMAL || t.switch == PW_ON {
            (v, None)
        } else {
            let meta = types[t.miner_metadata_id];
            if t.power_left / meta.w == 0 {
                (v, Some(Error::InsufficientPower))
            } else {
                let t2 = spec_powered_on_token(t, epoch, meta.w);
                (
                    MiningView {
                        tokens: v.tokens.insert(tid, t2),
                        entities: crate::ledger::spec_increase(v.entities, t.owner_id, meta.thash),
                        total: (v.total + meta.thash) as u32,
                        events: crate::scheduler::spec_schedule(v.events, t2.power_deadline, tid),
                    },
                    None,
                )
            }
        }
    }
}

/// What `power_off` does: the same existence and control checks, a no-op on
/// a malfunctioning or already stopped miner, and otherwise the owner's
/// hash-power is debited (an absent or too small ledger entry is an
/// internal-invariant failure), the power event is unscheduled and the
/// whole unconsumed epochs are refunded.
pub open spec fn spec_power_off(
    v: MiningView,
    types: Map<Seq<char>, MinerMetadata>,
    epoch: u32,
    caller: Seq<char>,
    tid: Seq<char>,
) -> (MiningView, Option<Error>) {
    if !v.tokens.contains_key(tid) {
        (v, Some(Error::NotFound))
    } else {
        let t = v.tokens[tid];
        if t.owner_id != caller || t.operator != t.owner_id {
            (v, Some(Error::Forbidden))
        } else if t.status != ST_NORMAL || t.switch == PW_OFF {
            (v, None)
        } else {
            let meta = types[t.miner_metadata_id];
            match crate::ledger::spec_decrease(v.entities, t.owner_id, meta.thash) {
                None => (v, Some(Error::InternalError)),
                Some(en2) => {
                    let t2 = spec_powered_off_token(t, epoch, meta.w);
                    (
                        MiningView {
                            tokens: v.tokens.insert(tid, t2),
                            entities: en2,
                            total: (v.total - meta.thash) as u32,
                            events: crate::scheduler::spec_unschedule(
                                v.events,
                                t.power_deadline,
                                tid,
                            )->Some_0,
                        },
                        None,
                    )
                },
            }
        }
    }
}

/// Whether a `power_on` of `id` would actually switch the miner on in the
/// given state: it exists, the caller is both owner and operator, it is
/// normal and off, and its charge covers at least one epoch.
pub open spec fn spec_power_on_eligible(
    tokens: Map<Seq<char>, TokenView>,
    types: Map<Seq<char>, MinerMetadata>,
    caller: Seq<char>,
    id: Seq<char>,
) -> bool {
    &&& tokens.contains_key(id)
    &&& tokens[id].owner_id == caller
    &&& tokens[id].operator == tokens[id].owner_id
    &&& tokens[id].status == ST_NORMAL
    &&& tokens[id].switch == PW_OFF
    &&& types.contains_key(tokens[id].miner_metadata_id)
    &&& tokens[id].power_left / types[tokens[id].miner_metadata_id].w >= 1
}

/// The arithmetic room a single `power_on` needs: when the call will
/// actually switch the miner on, the new total must fit the hash-power
/// counter and the new deadline must fit the epoch counter.
pub open spec fn power_on_within_limits(
    v: MiningView,
    types: Map<Seq<char>, MinerMetadata>,
    epoch: u32,
    caller: Seq<char>,
    tid: Seq<char>,
) -> bool {
    spec_power_on_eligible(v.tokens, types, caller, tid) ==> ({
        let meta = types[v.tokens[tid].miner_metadata_id];
        &&& v.total + meta.thash <= u32::MAX
        &&& epoch + v.tokens[tid].power_left / meta.w <= u32::MAX
    })
}

impl Contract {
    /// The parts of the state that power operations touch, as one value.
    pub open spec fn mining_view(self) -> MiningView {
        MiningView {
            tokens: self.miners_by_id@,
            entities: self.hash_ledger@,
            total: self.hash_ledger.spec_total(),
            events: self.power_events@,
        }
    }

    /// Switches one miner on: consumes whole epochs of stored power,
    /// credits the owner's aggregate hash-power, and schedules the power
    /// event at the resulting deadline, atomically.
    pub fn power_on_miner(&mut self, caller: &AccountId, token_id: &TokenId) -> (r: Result<
        (),
        Error,
    >)
        requires
            old(self).wf(),
            power_on_within_limits(
                old(self).mining_view(),
                old(self).miner_metadata_by_id@,
                old(self).current_mining_epoch,
                caller@,
                token_id@,
            ),
        ensures
            final(self).wf(),
            ({
                let (v2, e) = spec_power_on(
                    old(self).mining_view(),
                    old(self).miner_metadata_by_id@,
                    old(self).current_mining_epoch,
                    caller@,
                    token_id@,
                );
                &&& final(self).mining_view() == v2
                &&& r == (match e {
                    Some(er) => Err::<(), Error>(er),
                    None => Ok::<(), Error>(()),
                })
                &&& e is Some ==> *final(self) == *old(self)
                &&& *final(self) == (Contract {
                    miners_by_id: final(self).miners_by_id,
                    hash_ledger: final(self).hash_ledger,
                    power_events: final(self).power_events,
                    ..*old(self)
                })
            }),
    {
        let (owner, mmid, power_left) = match self.miners_by_id.get(token_id) {
            None => {
                return Err(Error::NotFound);
            },
            Some(tk) => {
                if *caller != tk.owner_id || tk.owner_id != tk.operator {
                    return Err(Error::Forbidden);
                }
                if tk.status != ST_NORMAL || tk.switch == PW_ON {
                    return Ok(());
                }
                (tk.owner_id.clone(), tk.miner_metadata_id.clone(), tk.power_left)
            },
        };
        let ghost v0 = self.mining_view();
        let ghost t0 = v0.tokens[token_id@];
        let (meta_thash, meta_w) = match self.miner_metadata_by_id.get(&mmid) {
            Some(m) => (m.thash, m.w),
            None => unreached(),
        };
        let hours = power_left / meta_w;
        if hours == 0 {
            return Err(Error::InsufficientPower);
        }

        let mut token = match self.miners_by_id.take(token_id) {
            Some(t) => t,
            None => unreached(),
        };
        token.switch = PW_ON;
        token.power_left = power_left % meta_w;
        token.power_deadline = self.current_mining_epoch + hours;
        let deadline = token.power_deadline;
        let ghost t_new = token@;
        self.miners_by_id.insert(token_id.clone(), token);
        self.hash_ledger.increase(&owner, meta_thash);
        self.power_events.schedule(token_id.clone(), deadline);

        proof {
            assert(t_new == spec_powered_on_token(t0, old(self).current_mining_epoch, meta_w));
            assert(self.miners_by_id@ =~= v0.tokens.remove(token_id@).insert(token_id@, t_new));
            assert(v0.tokens.remove(token_id@).insert(token_id@, t_new) =~= v0.tokens.insert(
                token_id@,
                t_new,
            ));
            lemma_index_consistent_update_same_owner(
                v0.tokens,
                self.miners_per_owner@,
                token_id@,
                t_new,
            );
            // The consumed and remaining power together are the old charge.
            lemma_fundamental_div_mod(t0.power_left as int, meta_w as int);
            lemma_mod_division_less_than_divisor(t0.power_left as int, meta_w as int);
            assert(meta_w as int * (t0.power_left as int / meta_w as int) == (t0.power_left as int
                / meta_w as int) * meta_w as int) by (nonlinear_arith);
            assert(t_new.power_left + (t_new.power_deadline - self.current_mining_epoch)
                * meta_w == t0.power_left);
            assert forall|id: Seq<char>| #[trigger]
                self.miners_by_id@.contains_key(id) implies self.token_ok(
                self.miners_by_id@[id],
            ) by {
                if id != token_id@ {
                    assert(v0.tokens.contains_key(id));
                    assert(self.miners_by_id@[id] == v0.tokens[id]);
                }
            }
            // Scheduler consistency across the schedule call.
            broadcast use vstd::seq_lib::lemma_seq_contains_after_push;

            let events2 = self.power_events@;
            let tokens2 = self.miners_by_id@;
            assert forall|e: u32, id: Seq<char>|
                events2.contains_key(e) && #[trigger] events2[e].contains(id) implies tokens2
                .contains_key(id) && tokens2[id].switch == PW_ON && tokens2[id].power_deadline
                == e by {
                if e == deadline {
                    if id != token_id@ {
                        assert(v0.events.contains_key(e) && v0.events[e].contains(id));
                        assert(tokens2[id] == v0.tokens[id]);
                    }
                } else {
                    assert(v0.events.contains_key(e) && v0.events[e].contains(id));
                    assert(id != token_id@);
                    assert(tokens2[id] == v0.tokens[id]);
                }
            }
            assert forall|id: Seq<char>|
                #[trigger] tokens2.contains_key(id) && tokens2[id].switch == PW_ON implies events2
                .contains_key(tokens2[id].power_deadline) && events2[tokens2[
                id
            ].power_deadline].contains(id) by {
                if id != token_id@ {
                    assert(v0.tokens.contains_key(id) && tokens2[id] == v0.tokens[id]);
                    assert(v0.events.contains_key(v0.tokens[id].power_deadline));
                }
            }
        }
        Ok(())
    }

    /// Switches one miner off: debits the owner's aggregate hash-power,
    /// unschedules the power event at its deadline and refunds the whole
    /// epochs it will no longer run, atomically. An absent or too small
    /// ledger entry fails with `InternalError` and changes nothing.
    pub fn power_off_miner(&mut self, caller: &AccountId, token_id: &TokenId) -> (r: Result<
        (),
        Error,
    >)
        requires
            old(self).wf(),
        ensures
            final(self).wf(),
            ({
                let (v2, e) = spec_power_off(
                    old(self).mining_view(),
                    old(self).miner_metadata_by_id@,
                    old(self).current_mining_epoch,
                    caller@,
                    token_id@,
                );
                &&& final(self).mining_view() == v2
                &&& r == (match e {
                    Some(er) => Err::<(), Error>(er),
                    None => Ok::<(), Error>(()),
                })
                &&& e is Some ==> *final(self) == *old(self)
                &&& *final(self) == (Contract {
                    miners_by_id: final(self).miners_by_id,
                    hash_ledger: final(self).hash_ledger,
                    power_events: final(self).power_events,
                    ..*old(self)
                })
            }),
    {
        let (owner, mmid, power_deadline) = match self.miners_by_id.get(token_id) {
            None => {
                return Err(Error::NotFound);
            },
            Some(tk) => {
                if *caller != tk.owner_id || tk.owner_id != tk.operator {
                    return Err(Error::Forbidden);
                }
                if tk.status != ST_NORMAL || tk.switch == PW_OFF {
                    return Ok(());
                }
                (tk.owner_id.clone(), tk.miner_metadata_id.clone(), tk.power_deadline)
            },
        };
        let ghost v0 = self.mining_view();
        let ghost t0 = v0.tokens[token_id@];
        let (meta_thash, meta_w) = match self.miner_metadata_by_id.get(&mmid) {
            Some(m) => (m.thash, m.w),
            None => unreached(),
        };

        match self.hash_ledger.decrease(&owner, meta_thash) {
            Ok(()) => {},
            Err(e) => {
                return Err(e);
            },
        }
        proof {
            self.power_events.lemma_nonempty(power_deadline);
        }
        match self.power_events.unschedule(token_id, power_deadline) {
            Ok(()) => {},
            Err(_) => {
                unreached::<()>();
            },
        }
        let mut token = match self.miners_by_id.take(token_id) {
            Some(t) => t,
            None => unreached(),
        };
        let refund = (power_deadline - self.current_mining_epoch) * meta_w;
        token.switch = PW_OFF;
        token.power_left = token.power_left + refund;
        let ghost t_new = token@;
        self.miners_by_id.insert(token_id.clone(), token);

        proof {
            assert(t_new == spec_powered_off_token(t0, old(self).current_mining_epoch, meta_w));
            assert(self.miners_by_id@ =~= v0.tokens.insert(token_id@, t_new));
            lemma_index_consistent_update_same_owner(
                v0.tokens,
                self.miners_per_owner@,
                token_id@,
                t_new,
            );
            assert forall|id: Seq<char>| #[trigger]
                self.miners_by_id@.contains_key(id) implies self.token_ok(
                self.miners_by_id@[id],
            ) by {
                if id != token_id@ {
                    assert(v0.tokens.contains_key(id));
                    assert(self.miners_by_id@[id] == v0.tokens[id]);
                }
            }
            // Scheduler consistency across the unschedule call.
            crate::sset::lemma_remove_seq_value_props(v0.events[power_deadline], token_id@);
            let events2 = self.power_events@;
            let tokens2 = self.miners_by_id@;
            assert forall|e: u32, id: Seq<char>|
                events2.contains_key(e) && #[trigger] events2[e].contains(id) implies tokens2
                .contains_key(id) && tokens2[id].switch == PW_ON && tokens2[id].power_deadline
                == e by {
                if e == power_deadline {
                    assert(v0.events[e].contains(id) && id != token_id@);
                    assert(tokens2[id] == v0.tokens[id]);
                } else {
                    assert(v0.events.contains_key(e) && v0.events[e].contains(id));
                    assert(id != token_id@);
                    assert(tokens2[id] == v0.tokens[id]);
                }
            }
            assert forall|id: Seq<char>|
                #[trigger] tokens2.contains_key(id) && tokens2[id].switch == PW_ON implies events2
                .contains_key(tokens2[id].power_deadline) && events2[tokens2[
                id
            ].power_deadline].contains(id) by {
                assert(id != token_id@);
                assert(v0.tokens.contains_key(id) && tokens2[id] == v0.tokens[id]);
                let dl = v0.tokens[id].power_deadline;
                if dl == power_deadline {
                    assert(crate::sset::remove_seq_value(v0.events[dl], token_id@).contains(id));
                }
            }
        }
        Ok(())
    }
}

/// A batch of `power_on` steps, one token after the other, stopping at the
/// first failure. The batch operation applies this fold only when no step
/// fails; a failing batch changes nothing.
pub open spec fn spec_batch_power_on(
    v: MiningView,
    types: Map<Seq<char>, MinerMetadata>,
    epoch: u32,
    caller: Seq<char>,
    ids: Seq<Seq<char>>,
) -> (MiningView, Option<Error>)
    decreases ids.len(),
{
    if ids.len() == 0 {
        (v, None::<Error>)
    } else {
        let (v1, e) = spec_power_on(v, types, epoch, caller, ids[0]);
        if e is Some {
            (v1, e)
        } else {
            spec_batch_power_on(v1, types, epoch, caller, ids.drop_first())
        }
    }
}

/// A batch of `power_off` steps, one token after the other, stopping at
/// the first failure. The batch operation applies this fold only when no
/// step fails; a failing batch changes nothing.
pub open spec fn spec_batch_power_off(
    v: MiningView,
    types: Map<Seq<char>, MinerMetadata>,
    epoch: u32,
    caller: Seq<char>,
    ids: Seq<Seq<char>>,
) -> (MiningView, Option<Error>)
    decreases ids.len(),
{
    if ids.len() == 0 {
        (v, None::<Error>)
    } else {
        let (v1, e) = spec_power_off(v, types, epoch, caller, ids[0]);
        if e is Some {
            (v1, e)
        } else {
            spec_batch_power_off(v1, types, epoch, caller, ids.drop_first())
        }
    }
}

/// An upper bound on the hash-power a batch of `power_on` calls can add:
/// the sum of the hash rates of the listed tokens that would actually
/// switch on (duplicates counted once per listing). Tokens the batch skips
/// as no-ops add nothing.
pub open spec fn spec_batch_thash_sum(
    tokens: Map<Seq<char>, TokenView>,
    types: Map<Seq<char>, MinerMetadata>,
    caller: Seq<char>,
    ids: Seq<Seq<char>>,
) -> int
    decreases ids.len(),
{
    if ids.len() == 0 {
        0
    } else {
        (if spec_power_on_eligible(tokens, types, caller, ids[0]) {
            types[tokens[ids[0]].miner_metadata_id].thash as int
        } else {
            0
        }) + spec_batch_thash_sum(tokens, types, caller, ids.drop_first())
    }
}

/// The batch bound is never negative.
proof fn lemma_batch_thash_sum_nonneg(
    tokens: Map<Seq<char>, TokenView>,
    types: Map<Seq<char>, MinerMetadata>,
    caller: Seq<char>,
    ids: Seq<Seq<char>>,
)
    ensures
        spec_batch_thash_sum(tokens, types, caller, ids) >= 0,
    decreases ids.len(),
{
    if ids.len() > 0 {
        lemma_batch_thash_sum_nonneg(tokens, types, caller, ids.drop_first());
    }
}

/// All tokens listed in `ids` with their switches forced off; everything
/// else unchanged. Power is not refunded on forced expiry.
pub open spec fn spec_tokens_off(
    tokens: Map<Seq<char>, TokenView>,
    ids: Seq<Seq<char>>,
) -> Map<Seq<char>, TokenView> {
    Map::new(
        |k: Seq<char>| tokens.dom().contains(k),
        |k: Seq<char>|
            if ids.contains(k) {
                TokenView { switch: PW_OFF, ..tokens[k] }
            } else {
                tokens[k]
            },
    )
}

/// The hash-power ledger after the power expiry of every token in `ids`,
/// walked in order: each debits its owner by its type's hash rate. `None`
/// when a token or its type is missing or an owner's aggregate is too
/// small — internal-invariant failures on which nothing may change.
pub open spec fn spec_expire_entities(
    tokens: Map<Seq<char>, TokenView>,
    types: Map<Seq<char>, MinerMetadata>,
    entities: Seq<(Seq<char>, u32)>,
    total: u32,
    ids: Seq<Seq<char>>,
) -> Option<(Seq<(Seq<char>, u32)>, u32)>
    decreases ids.len(),
{
    if ids.len() == 0 {
        Some((entities, total))
    } else {
        let id = ids[0];
        if !tokens.contains_key(id) {
            None
        } else {
            let t = tokens[id];
            if !types.contains_key(t.miner_metadata_id) {
                None
            } else {
                let thash = types[t.miner_metadata_id].thash;
                match crate::ledger::spec_decrease(entities, t.owner_id, thash) {
                    None => None,
                    Some(en2) => spec_expire_entities(
                        tokens,
                        types,
                        en2,
                        (total - thash) as u32,
                        ids.drop_first(),
                    ),
                }
            }
        }
    }
}

/// What one successful settlement reports back, so the embedder can emit
/// the reward event for the selected block producer.
#[derive(Debug)]
pub struct SettlementReceipt {
    /// The account selected by the weighted lottery.
    pub block_producer: AccountId,
    /// The drawn value the lottery ran on.
    pub random_value: Thash,
    /// The epoch that was settled.
    pub epoch: MiningEpoch,
    /// The award attached to one epoch.
    pub epoch_award: crate::types::Balance,
}

impl Contract {
    /// Forces the power expiry of every token scheduled at `at_epoch`: each
    /// switch goes off, each owner's hash-power is debited, and the power
    /// event is dropped — the entire drained set or nothing at all.
    /// Remaining power is not refunded on forced expiry.
    pub fn settle_power_for_individuals(&mut self, at_epoch: MiningEpoch) -> (r: Result<
        (),
        Error,
    >)
        requires
            old(self).wf(),
        ensures
            final(self).wf(),
            ({
                let ids = if old(self).power_events@.contains_key(at_epoch) {
                    old(self).power_events@[at_epoch]
                } else {
                    Seq::<Seq<char>>::empty()
                };
                match spec_expire_entities(
                    old(self).miners_by_id@,
                    old(self).miner_metadata_by_id@,
                    old(self).hash_ledger@,
                    old(self).hash_ledger.spec_total(),
                    ids,
                ) {
                    Some(en2) => ({
                        &&& r == Ok::<(), Error>(())
                        &&& final(self).miners_by_id@ == spec_tokens_off(
                            old(self).miners_by_id@,
                            ids,
                        )
                        &&& final(self).hash_ledger@ == en2.0
                        &&& final(self).hash_ledger.spec_total() == en2.1
                        &&& final(self).power_events@ == old(self).power_events@.remove(at_epoch)
                        &&& *final(self) == (Contract {
                            miners_by_id: final(self).miners_by_id,
                            hash_ledger: final(self).hash_ledger,
                            power_events: final(self).power_events,
                            ..*old(self)
                        })
                    }),
                    None => r == Err::<(), Error>(Error::InternalError) && *final(self) == *old(
                        self,
                    ),
                }
            }),
    {
        let ghost tokens0 = self.miners_by_id@;
        let ghost types0 = self.miner_metadata_by_id@;
        let ghost entities0 = self.hash_ledger@;
        let ghost total0 = self.hash_ledger.spec_total();

        let drained: Vec<String> = match self.power_events.get(at_epoch) {
            None => {
                proof {
                    assert(self.power_events@ =~= self.power_events@.remove(at_epoch));
                }
                return Ok(());
            },
            Some(set) => set.to_vec(),
        };
        let ghost ids = self.power_events@[at_epoch];
        proof {
            assert(drained.deep_view() == ids);
        }

        // First pass: replay every debit on a copy of the ledger, so that a
        // failure leaves everything untouched.
        let n = drained.len();
        let mut trial = self.hash_ledger.duplicate();
        let mut i: usize = 0;
        proof {
            assert(ids.skip(0) =~= ids);
        }
        while i < n
            invariant
                *self == *old(self),
                self.wf(),
                n == drained@.len(),
                drained.deep_view() == ids,
                i <= n,
                self.power_events@.contains_key(at_epoch),
                ids == self.power_events@[at_epoch],
                trial.wf(),
                spec_expire_entities(tokens0, types0, entities0, total0, ids)
                    == spec_expire_entities(
                    tokens0,
                    types0,
                    trial@,
                    trial.spec_total(),
                    ids.skip(i as int),
                ),
                tokens0 == self.miners_by_id@,
                types0 == self.miner_metadata_by_id@,
                entities0 == self.hash_ledger@,
                total0 == self.hash_ledger.spec_total(),
            decreases n - i,
        {
            proof {
                assert(ids[i as int] == drained@[i as int]@);
                assert(self.power_events@[at_epoch].contains(ids[i as int]));
            }
            let tid = &drained[i];
            let (owner, mmid) = match self.miners_by_id.get(tid) {
                Some(tk) => (tk.owner_id.clone(), tk.miner_metadata_id.clone()),
                None => unreached(),
            };
            let thash = match self.miner_metadata_by_id.get(&mmid) {
                Some(m) => m.thash,
                None => unreached(),
            };
            proof {
                assert(ids.skip(i as int)[0] == ids[i as int]);
                assert(ids.skip(i as int).drop_first() =~= ids.skip(i as int + 1));
            }
            match trial.decrease(&owner, thash) {
                Ok(()) => {},
                Err(e) => {
                    return Err(e);
                },
            }
            i = i + 1;
        }
        proof {
            assert(ids.skip(n as int) =~= Seq::<Seq<char>>::empty());
        }

        // Second pass: force every drained switch off, then commit the
        // ledger and drop the power event.
        let mut j: usize = 0;
        proof {
            assert(ids.take(0) =~= Seq::<Seq<char>>::empty());
            assert(self.miners_by_id@ =~= spec_tokens_off(tokens0, ids.take(0)));
            self.power_events.lemma_nonempty(at_epoch);
            assert forall|k: int| 0 <= k < n implies tokens0.contains_key(ids[k]) by {
                assert(self.power_events@[at_epoch][k] == ids[k]);
                assert(self.power_events@[at_epoch].contains(ids[k]));
            }
        }
        while j < n
            invariant
                n == drained@.len(),
                drained.deep_view() == ids,
                j <= n,
                forall|id: Seq<char>| #[trigger]
                    tokens0.contains_key(id) || !self.miners_by_id@.contains_key(id),
                self.miners_by_id@ == spec_tokens_off(tokens0, ids.take(j as int)),
                self.miners_by_id.wf(),
                forall|k: int| 0 <= k < n ==> tokens0.contains_key(ids[k]),
                *self == (Contract { miners_by_id: self.miners_by_id, ..*old(self) }),
            decreases n - j,
        {
            proof {
                assert(ids[j as int] == drained@[j as int]@);
            }
            let tid = &drained[j];
            let mut token = match self.miners_by_id.take(tid) {
                Some(t) => t,
                None => unreached(),
            };
            token.switch = PW_OFF;
            let ghost t_new = token@;
            self.miners_by_id.insert(tid.clone(), token);
            proof {
                assert(ids.take(j as int + 1) =~= ids.take(j as int).push(ids[j as int]));
                broadcast use vstd::seq_lib::lemma_seq_contains_after_push;

                assert(self.miners_by_id@ =~= spec_tokens_off(tokens0, ids.take(j as int + 1)));
            }
            j = j + 1;
        }
        proof {
            assert(ids.take(n as int) =~= ids);
        }
        self.hash_ledger = trial;
        let _ = self.power_events.drain(at_epoch);

        proof {
            let tokens2 = self.miners_by_id@;
            let events2 = self.power_events@;
            // The index does not see switches.
            assert forall|id: Seq<char>| #[trigger]
                tokens2.contains_key(id) implies crate::state::index_has_in(
                self.miners_per_owner@,
                tokens2[id].owner_id,
                tokens2[id].miner_metadata_id,
                id,
            ) && self.token_ok(tokens2[id]) by {
                assert(tokens0.contains_key(id));
                assert(tokens2[id].owner_id == tokens0[id].owner_id);
                assert(tokens2[id].miner_metadata_id == tokens0[id].miner_metadata_id);
            }
            assert forall|o: Seq<char>, m: Seq<char>, id: Seq<char>|
                self.miners_per_owner@.contains_key(o) && self.miners_per_owner@[o].contains_key(
                    m,
                ) && #[trigger] self.miners_per_owner@[o][m].contains(id) implies tokens2
                .contains_key(id) && tokens2[id].owner_id == o && tokens2[id].miner_metadata_id
                == m by {
                assert(tokens0.contains_key(id));
            }
            // The scheduler stays in step: everything at `at_epoch` went
            // off, nothing else changed.
            assert forall|e: u32, id: Seq<char>|
                events2.contains_key(e) && #[trigger] events2[e].contains(id) implies tokens2
                .contains_key(id) && tokens2[id].switch == PW_ON && tokens2[id].power_deadline
                == e by {
                assert(e != at_epoch);
                assert(tokens0.contains_key(id) && tokens0[id].switch == PW_ON && tokens0[
                    id
                ].power_deadline == e);
                assert(!ids.contains(id));
            }
            assert forall|id: Seq<char>|
                #[trigger] tokens2.contains_key(id) && tokens2[id].switch == PW_ON implies events2
                .contains_key(tokens2[id].power_deadline) && events2[tokens2[
                id
            ].power_deadline].contains(id) by {
                assert(tokens0.contains_key(id));
                assert(!ids.contains(id));
                assert(tokens0[id].switch == PW_ON);
                assert(tokens0[id].power_deadline != at_epoch);
            }
        }
        Ok(())
    }

    /// Settlement pipeline step reserved for pooled mining; it performs no
    /// state change in this revision.
    pub fn settle_power_for_pools(&mut self)
        ensures
            *final(self) == *old(self),
    {
    }

    /// Settlement pipeline step reserved for stochastic failure handling;
    /// it performs no state change in this revision.
    pub fn settle_random_failures(&mut self)
        ensures
            *final(self) == *old(self),
    {
    }

    /// Settles one mining epoch: only the contract owner may call, and only
    /// after the minimum block interval since the previous settlement. A
    /// random value is drawn from the host seed, the weighted lottery picks
    /// the block producer from the hash-power standing before expiry, the
    /// epoch advances by one, and every token scheduled at the new epoch
    /// loses its power. Any failure leaves the state untouched, including
    /// the start-of-epoch marker, so a retried call in the same block
    /// window behaves exactly like the first attempt.
    pub fn settle_mining_epoch(
        &mut self,
        caller: &AccountId,
        current_block: BlockHeight,
        random_seed: &Vec<u8>,
    ) -> (r: Result<SettlementReceipt, Error>)
        requires
            old(self).wf(),
            random_seed@.len() >= 16,
            old(self).current_mining_epoch < u32::MAX,
        ensures
            final(self).wf(),
            caller@ != old(self).owner_id@ ==> r == Err::<SettlementReceipt, Error>(
                Error::NotAuthorized,
            ) && *final(self) == *old(self),
            caller@ == old(self).owner_id@ && (current_block as int) < old(
                self,
            ).current_epoch_start_at + old(self).min_interval_of_epoch ==> r == Err::<
                SettlementReceipt,
                Error,
            >(Error::TooSoon) && *final(self) == *old(self),
            caller@ == old(self).owner_id@ && (current_block as int) >= old(
                self,
            ).current_epoch_start_at + old(self).min_interval_of_epoch ==> ({
                let next = (old(self).current_mining_epoch + 1) as u32;
                let ids = if old(self).power_events@.contains_key(next) {
                    old(self).power_events@[next]
                } else {
                    Seq::<Seq<char>>::empty()
                };
                match spec_expire_entities(
                    old(self).miners_by_id@,
                    old(self).miner_metadata_by_id@,
                    old(self).hash_ledger@,
                    old(self).hash_ledger.spec_total(),
                    ids,
                ) {
                    None => r == Err::<SettlementReceipt, Error>(Error::InternalError)
                        && *final(self) == *old(self),
                    Some(en2) => ({
                        let value = spec_random_value(
                            old(self).hash_ledger.spec_total(),
                            random_seed@,
                        );
                        &&& r is Ok
                        &&& r->Ok_0.block_producer@ == spec_producer(
                            old(self).hash_ledger@,
                            value,
                            old(self).owner_id@,
                        )
                        &&& r->Ok_0.random_value as int == value
                        &&& r->Ok_0.epoch == old(self).current_mining_epoch
                        &&& r->Ok_0.epoch_award == old(self).epoch_award
                        &&& final(self).current_mining_epoch == next
                        &&& final(self).current_epoch_start_at == current_block
                        &&& final(self).miners_by_id@ == spec_tokens_off(
                            old(self).miners_by_id@,
                            ids,
                        )
                        &&& final(self).hash_ledger@ == en2.0
                        &&& final(self).hash_ledger.spec_total() == en2.1
                        &&& final(self).power_events@ == old(self).power_events@.remove(next)
                        &&& *final(self) == (Contract {
                            miners_by_id: final(self).miners_by_id,
                            hash_ledger: final(self).hash_ledger,
                            power_events: final(self).power_events,
                            current_mining_epoch: final(self).current_mining_epoch,
                            current_epoch_start_at: final(self).current_epoch_start_at,
                            ..*old(self)
                        })
                    }),
                }
            }),
    {
        if *caller != self.owner_id {
            return Err(Error::NotAuthorized);
        }
        if current_block < self.current_epoch_start_at {
            return Err(Error::TooSoon);
        }
        if current_block - self.current_epoch_start_at < self.min_interval_of_epoch {
            return Err(Error::TooSoon);
        }

        let random_value = self.make_random_value(random_seed);
        let block_producer = self.find_block_producer(random_value);
        let next = self.current_mining_epoch + 1;

        match self.settle_power_for_individuals(next) {
            Ok(()) => {},
            Err(e) => {
                return Err(e);
            },
        }
        self.settle_power_for_pools();
        self.settle_random_failures();

        let receipt = SettlementReceipt {
            block_producer,
            random_value,
            epoch: self.current_mining_epoch,
            epoch_award: self.epoch_award,
        };
        self.current_epoch_start_at = current_block;
        self.current_mining_epoch = next;

        proof {
            // Advancing the epoch keeps every running token in the future:
            // nothing is scheduled at the new epoch any more.
            let tokens2 = self.miners_by_id@;
            assert forall|id: Seq<char>| #[trigger]
                tokens2.contains_key(id) implies self.token_ok(tokens2[id]) by {
                let t = tokens2[id];
                if t.switch == PW_ON {
                    assert(self.power_events@.contains_key(t.power_deadline));
                    assert(t.power_deadline != next);
                    assert(t.power_deadline > next);
                    let w = self.miner_metadata_by_id@[t.miner_metadata_id].w;
                    assert((t.power_deadline - next) * w <= (t.power_deadline - (next - 1)) * w)
                        by {
                        lemma_mul_inequality(
                            t.power_deadline - next,
                            t.power_deadline - (next - 1),
                            w as int,
                        );
                    }
                }
            }
        }
        Ok(receipt)
    }
}

impl Contract {
    /// Switches the listed miners on, one after the other — the entire
    /// batch or nothing at all: every step is checked on a scratch replay
    /// first, so the first failure is reported with the state untouched.
    pub fn batch_poweron_miners(&mut self, caller: &AccountId, token_ids: &Vec<TokenId>) -> (r:
        Result<(), Error>)
        requires
            old(self).wf(),
            old(self).hash_ledger.spec_total() + spec_batch_thash_sum(
                old(self).miners_by_id@,
                old(self).miner_metadata_by_id@,
                caller@,
                token_ids.deep_view(),
            ) <= u32::MAX,
            forall|k: int|
                0 <= k < token_ids.deep_view().len() ==> ({
                    let id = #[trigger] token_ids.deep_view()[k];
                    spec_power_on_eligible(
                        old(self).miners_by_id@,
                        old(self).miner_metadata_by_id@,
                        caller@,
                        id,
                    ) ==> old(self).current_mining_epoch + old(self).miners_by_id@[id].power_left
                        / old(self).miner_metadata_by_id@[
                        old(self).miners_by_id@[id].miner_metadata_id
                    ].w <= u32::MAX
                }),
        ensures
            final(self).wf(),
            ({
                let (v2, e) = spec_batch_power_on(
                    old(self).mining_view(),
                    old(self).miner_metadata_by_id@,
                    old(self).current_mining_epoch,
                    caller@,
                    token_ids.deep_view(),
                );
                match e {
                    Some(er) => r == Err::<(), Error>(er) && *final(self) == *old(self),
                    None => r == Ok::<(), Error>(()) && final(self).mining_view() == v2
                        && *final(self) == (Contract {
                        miners_by_id: final(self).miners_by_id,
                        hash_ledger: final(self).hash_ledger,
                        power_events: final(self).power_events,
                        ..*old(self)
                    }),
                }
            }),
    {
        let ghost v0 = self.mining_view();
        let ghost tokens0 = self.miners_by_id@;
        let ghost types0 = self.miner_metadata_by_id@;
        let ghost epoch0 = self.current_mining_epoch;
        let ghost ids = token_ids.deep_view();
        let n = token_ids.len();

        // First pass: replay every step's checks without touching state,
        // so that a failing batch changes nothing.
        let mut already_on = StringSet::new();
        let ghost mut tk = tokens0;
        let ghost mut en = v0.entities;
        let ghost mut tot = v0.total;
        let ghost mut ev = v0.events;
        let mut i: usize = 0;
        proof {
            assert(ids.skip(0) =~= ids);
            assert forall|id: Seq<char>|
                tk.contains_key(id) implies ((#[trigger] tk[id]).switch == PW_ON || tk[id].switch
                == PW_OFF) by {
                assert(old(self).token_ok(tokens0[id]));
            }
        }
        while i < n
            invariant
                *self == *old(self),
                self.wf(),
                n == token_ids@.len(),
                ids == token_ids.deep_view(),
                ids.len() == n,
                i <= n,
                tokens0 == old(self).miners_by_id@,
                types0 == old(self).miner_metadata_by_id@,
                epoch0 == old(self).current_mining_epoch,
                v0 == old(self).mining_view(),
                already_on.wf(),
                spec_batch_power_on(
                    MiningView { tokens: tk, entities: en, total: tot, events: ev },
                    types0,
                    epoch0,
                    caller@,
                    ids.skip(i as int),
                ) == spec_batch_power_on(v0, types0, epoch0, caller@, ids),
                forall|id: Seq<char>| #[trigger] tk.contains_key(id) <==> tokens0.contains_key(
                    id,
                ),
                forall|id: Seq<char>|
                    tk.contains_key(id) ==> (#[trigger] tk[id]).owner_id == tokens0[id].owner_id
                        && tk[id].operator == tokens0[id].operator && tk[id].status == tokens0[
                        id
                    ].status && tk[id].miner_metadata_id == tokens0[id].miner_metadata_id,
                forall|id: Seq<char>|
                    tk.contains_key(id) ==> ((#[trigger] tk[id]).switch == PW_ON <==> (tokens0[
                        id
                    ].switch == PW_ON || already_on@.contains(id))),
                forall|id: Seq<char>|
                    tk.contains_key(id) ==> ((#[trigger] tk[id]).switch == PW_ON || tk[id].switch
                        == PW_OFF),
                forall|id: Seq<char>|
                    tk.contains_key(id) && (#[trigger] tk[id]).switch == PW_OFF ==> tk[id]
                        == tokens0[id],
            decreases n - i,
        {
            let ghost v_mid = MiningView { tokens: tk, entities: en, total: tot, events: ev };
            proof {
                assert(ids[i as int] == token_ids@[i as int]@);
                assert(ids.skip(i as int)[0] == ids[i as int]);
                assert(ids.skip(i as int).drop_first() =~= ids.skip(i as int + 1));
            }
            let tid = &token_ids[i];
            let ghost gid = ids[i as int];
            match self.miners_by_id.get(tid) {
                None => {
                    proof {
                        assert(spec_power_on(v_mid, types0, epoch0, caller@, gid) == (
                            v_mid,
                            Some(Error::NotFound),
                        ));
                        assert(spec_batch_power_on(v0, types0, epoch0, caller@, ids) == (
                            v_mid,
                            Some(Error::NotFound),
                        ));
                    }
                    return Err(Error::NotFound);
                },
                Some(tkn) => {
                    if *caller != tkn.owner_id || tkn.owner_id != tkn.operator {
                        proof {
                            assert(spec_power_on(v_mid, types0, epoch0, caller@, gid) == (
                                v_mid,
                                Some(Error::Forbidden),
                            ));
                            assert(spec_batch_power_on(v0, types0, epoch0, caller@, ids) == (
                                v_mid,
                                Some(Error::Forbidden),
                            ));
                        }
                        return Err(Error::Forbidden);
                    }
                    if tkn.status != ST_NORMAL || tkn.switch == PW_ON || already_on.contains(tid)
                    {
                        // The step is a no-op; the replay state is unchanged.
                        proof {
                            assert(tk[gid].status != ST_NORMAL || tk[gid].switch == PW_ON);
                        }
                    } else {
                        proof {
                            assert(tk[gid].switch != PW_ON);
                            assert(tk[gid] == tokens0[gid]);
                        }
                        let (meta_thash, meta_w) = match self.miner_metadata_by_id.get(
                            &tkn.miner_metadata_id,
                        ) {
                            Some(m) => (m.thash, m.w),
                            None => unreached(),
                        };
                        let hours = tkn.power_left / meta_w;
                        if hours == 0 {
                            proof {
                                assert(spec_power_on(v_mid, types0, epoch0, caller@, gid) == (
                                    v_mid,
                                    Some(Error::InsufficientPower),
                                ));
                                assert(spec_batch_power_on(v0, types0, epoch0, caller@, ids) == (
                                    v_mid,
                                    Some(Error::InsufficientPower),
                                ));
                            }
                            return Err(Error::InsufficientPower);
                        }
                        proof {
                            let t = tk[gid];
                            let t2 = spec_powered_on_token(t, epoch0, meta_w);
                            tk = tk.insert(gid, t2);
                            en = crate::ledger::spec_increase(en, t.owner_id, meta_thash);
                            tot = #[verifier::truncate] ((tot + meta_thash) as u32);
                            ev = crate::scheduler::spec_schedule(ev, t2.power_deadline, gid);
                        }
                        already_on.insert(tid.clone());
                    }
                },
            }
            i = i + 1;
        }
        proof {
            assert(ids.skip(n as int) =~= Seq::<Seq<char>>::empty());
        }
        let ghost v2g = MiningView { tokens: tk, entities: en, total: tot, events: ev };
        proof {
            assert(spec_batch_power_on(v0, types0, epoch0, caller@, ids) == (
                v2g,
                None::<Error>,
            ));
        }

        // Second pass: no step can fail any more; apply them all.
        let mut i: usize = 0;
        proof {
            assert(ids.skip(0) =~= ids);
        }
        while i < n
            invariant
                self.wf(),
                n == token_ids@.len(),
                ids == token_ids.deep_view(),
                ids.len() == n,
                i <= n,
                types0 == self.miner_metadata_by_id@,
                epoch0 == self.current_mining_epoch,
                tokens0 == old(self).miners_by_id@,
                v0 == old(self).mining_view(),
                spec_batch_power_on(v0, types0, epoch0, caller@, ids) == (v2g, None::<Error>),
                *self == (Contract {
                    miners_by_id: self.miners_by_id,
                    hash_ledger: self.hash_ledger,
                    power_events: self.power_events,
                    ..*old(self)
                }),
                spec_batch_power_on(self.mining_view(), types0, epoch0, caller@, ids.skip(i as int))
                    == spec_batch_power_on(v0, types0, epoch0, caller@, ids),
                self.hash_ledger.spec_total() + spec_batch_thash_sum(
                    tokens0,
                    types0,
                    caller@,
                    ids.skip(i as int),
                ) <= u32::MAX,
                forall|k: int|
                    0 <= k < ids.len() ==> (spec_power_on_eligible(
                        tokens0,
                        types0,
                        caller@,
                        #[trigger] ids[k],
                    ) ==> epoch0 + tokens0[ids[k]].power_left / types0[tokens0[
                        ids[k]
                    ].miner_metadata_id].w <= u32::MAX),
                forall|id: Seq<char>|
                    #[trigger] self.miners_by_id@.contains_key(id) <==> tokens0.contains_key(id),
                forall|id: Seq<char>|
                    self.miners_by_id@.contains_key(id) ==> (#[trigger] self.miners_by_id@[
                        id
                    ]).miner_metadata_id == tokens0[id].miner_metadata_id,
                forall|id: Seq<char>|
                    self.miners_by_id@.contains_key(id) ==> (self.miners_by_id@[id] == tokens0[id]
                        || (#[trigger] self.miners_by_id@[id]).switch == PW_ON),
            decreases n - i,
        {
            let ghost v_cur = self.mining_view();
            proof {
                assert(ids[i as int] == token_ids@[i as int]@);
                assert(ids.skip(i as int)[0] == ids[i as int]);
                assert(ids.skip(i as int).drop_first() =~= ids.skip(i as int + 1));
                lemma_batch_thash_sum_nonneg(tokens0, types0, caller@, ids.skip(i as int + 1));
                // The single step stays within the arithmetic room.
                let tid2 = ids[i as int];
                if spec_power_on_eligible(v_cur.tokens, types0, caller@, tid2) {
                    assert(v_cur.tokens[tid2] == tokens0[tid2]);
                    assert(spec_power_on_eligible(tokens0, types0, caller@, tid2));
                }
            }
            let tid = &token_ids[i];
            match self.power_on_miner(caller, tid) {
                Ok(()) => {},
                Err(e) => {
                    proof {
                        let tid2 = ids[i as int];
                        let (v1, e1) = spec_power_on(v_cur, types0, epoch0, caller@, tid2);
                        assert(spec_batch_power_on(
                            v_cur,
                            types0,
                            epoch0,
                            caller@,
                            ids.skip(i as int),
                        ) == (v_cur, e1));
                    }
                    unreached::<()>();
                },
            }
            proof {
                let tid2 = ids[i as int];
                let (v1, e1) = spec_power_on(v_cur, types0, epoch0, caller@, tid2);
                assert(self.mining_view() == v1);
            }
            i = i + 1;
        }
        proof {
            assert(ids.skip(n as int) =~= Seq::<Seq<char>>::empty());
        }
        Ok(())
    }

    /// Switches the listed miners off, one after the other — the entire
    /// batch or nothing at all: every step, including each hash-power
    /// debit, is checked on a scratch replay first, so the first failure
    /// is reported with the state untouched.
    pub fn batch_poweroff_miners(&mut self, caller: &AccountId, token_ids: &Vec<TokenId>) -> (r:
        Result<(), Error>)
        requires
            old(self).wf(),
        ensures
            final(self).wf(),
            ({
                let (v2, e) = spec_batch_power_off(
                    old(self).mining_view(),
                    old(self).miner_metadata_by_id@,
                    old(self).current_mining_epoch,
                    caller@,
                    token_ids.deep_view(),
                );
                match e {
                    Some(er) => r == Err::<(), Error>(er) && *final(self) == *old(self),
                    None => r == Ok::<(), Error>(()) && final(self).mining_view() == v2
                        && *final(self) == (Contract {
                        miners_by_id: final(self).miners_by_id,
                        hash_ledger: final(self).hash_ledger,
                        power_events: final(self).power_events,
                        ..*old(self)
                    }),
                }
            }),
    {
        let ghost v0 = self.mining_view();
        let ghost tokens0 = self.miners_by_id@;
        let ghost types0 = self.miner_metadata_by_id@;
        let ghost epoch0 = self.current_mining_epoch;
        let ghost ids = token_ids.deep_view();
        let n = token_ids.len();

        // First pass: replay every step's checks, including the ledger
        // debits, on a copy, so that a failing batch changes nothing.
        let mut trial = self.hash_ledger.duplicate();
        let mut already_off = StringSet::new();
        let ghost mut tk = tokens0;
        let ghost mut ev = v0.events;
        let mut i: usize = 0;
        proof {
            assert(ids.skip(0) =~= ids);
            assert forall|id: Seq<char>|
                tk.contains_key(id) implies ((#[trigger] tk[id]).switch == PW_ON || tk[id].switch
                == PW_OFF) by {
                assert(old(self).token_ok(tokens0[id]));
            }
        }
        while i < n
            invariant
                *self == *old(self),
                self.wf(),
                n == token_ids@.len(),
                ids == token_ids.deep_view(),
                ids.len() == n,
                i <= n,
                tokens0 == old(self).miners_by_id@,
                types0 == old(self).miner_metadata_by_id@,
                epoch0 == old(self).current_mining_epoch,
                v0 == old(self).mining_view(),
                already_off.wf(),
                trial.wf(),
                spec_batch_power_off(
                    MiningView {
                        tokens: tk,
                        entities: trial@,
                        total: trial.spec_total(),
                        events: ev,
                    },
                    types0,
                    epoch0,
                    caller@,
                    ids.skip(i as int),
                ) == spec_batch_power_off(v0, types0, epoch0, caller@, ids),
                forall|id: Seq<char>| #[trigger] tk.contains_key(id) <==> tokens0.contains_key(
                    id,
                ),
                forall|id: Seq<char>|
                    tk.contains_key(id) ==> (#[trigger] tk[id]).owner_id == tokens0[id].owner_id
                        && tk[id].operator == tokens0[id].operator && tk[id].status == tokens0[
                        id
                    ].status && tk[id].miner_metadata_id == tokens0[id].miner_metadata_id,
                forall|id: Seq<char>|
                    tk.contains_key(id) ==> ((#[trigger] tk[id]).switch == PW_OFF <==> (tokens0[
                        id
                    ].switch == PW_OFF || already_off@.contains(id))),
                forall|id: Seq<char>|
                    tk.contains_key(id) ==> ((#[trigger] tk[id]).switch == PW_ON || tk[id].switch
                        == PW_OFF),
                forall|id: Seq<char>|
                    tk.contains_key(id) && (#[trigger] tk[id]).switch == PW_ON ==> tk[id]
                        == tokens0[id],
            decreases n - i,
        {
            let ghost v_mid = MiningView {
                tokens: tk,
                entities: trial@,
                total: trial.spec_total(),
                events: ev,
            };
            proof {
                assert(ids[i as int] == token_ids@[i as int]@);
                assert(ids.skip(i as int)[0] == ids[i as int]);
                assert(ids.skip(i as int).drop_first() =~= ids.skip(i as int + 1));
            }
            let tid = &token_ids[i];
            let ghost gid = ids[i as int];
            let step = match self.miners_by_id.get(tid) {
                None => {
                    proof {
                        assert(spec_power_off(v_mid, types0, epoch0, caller@, gid) == (
                            v_mid,
                            Some(Error::NotFound),
                        ));
                        assert(spec_batch_power_off(v0, types0, epoch0, caller@, ids) == (
                            v_mid,
                            Some(Error::NotFound),
                        ));
                    }
                    return Err(Error::NotFound);
                },
                Some(tkn) => {
                    if *caller != tkn.owner_id || tkn.owner_id != tkn.operator {
                        proof {
                            assert(spec_power_off(v_mid, types0, epoch0, caller@, gid) == (
                                v_mid,
                                Some(Error::Forbidden),
                            ));
                            assert(spec_batch_power_off(v0, types0, epoch0, caller@, ids) == (
                                v_mid,
                                Some(Error::Forbidden),
                            ));
                        }
                        return Err(Error::Forbidden);
                    }
                    if tkn.status != ST_NORMAL || tkn.switch == PW_OFF || already_off.contains(
                        tid,
                    ) {
                        // The step is a no-op; the replay state is unchanged.
                        proof {
                            assert(tk[gid].status != ST_NORMAL || tk[gid].switch == PW_OFF);
                        }
                        None
                    } else {
                        proof {
                            assert(tk[gid].switch != PW_OFF);
                            assert(tk[gid] == tokens0[gid]);
                        }
                        let meta_thash = match self.miner_metadata_by_id.get(
                            &tkn.miner_metadata_id,
                        ) {
                            Some(m) => m.thash,
                            None => unreached(),
                        };
                        let ghost meta_w = types0[tk[gid].miner_metadata_id].w;
                        Some((tkn.owner_id.clone(), tkn.power_deadline, meta_thash))
                    }
                },
            };
            if let Some((owner, deadline, meta_thash)) = step {
                match trial.decrease(&owner, meta_thash) {
                    Ok(()) => {},
                    Err(e) => {
                        proof {
                            assert(spec_power_off(v_mid, types0, epoch0, caller@, gid) == (
                                v_mid,
                                Some(Error::InternalError),
                            ));
                            assert(spec_batch_power_off(v0, types0, epoch0, caller@, ids) == (
                                v_mid,
                                Some(Error::InternalError),
                            ));
                        }
                        return Err(e);
                    },
                }
                proof {
                    let t = tk[gid];
                    let meta_w = types0[t.miner_metadata_id].w;
                    let t2 = spec_powered_off_token(t, epoch0, meta_w);
                    tk = tk.insert(gid, t2);
                    ev = crate::scheduler::spec_unschedule(ev, t.power_deadline, gid)->Some_0;
                }
                already_off.insert(tid.clone());
            }
            i = i + 1;
        }
        proof {
            assert(ids.skip(n as int) =~= Seq::<Seq<char>>::empty());
        }
        let ghost v2g = MiningView {
            tokens: tk,
            entities: trial@,
            total: trial.spec_total(),
            events: ev,
        };
        proof {
            assert(spec_batch_power_off(v0, types0, epoch0, caller@, ids) == (
                v2g,
                None::<Error>,
            ));
        }

        // Second pass: no step can fail any more; apply them all.
        let mut i: usize = 0;
        proof {
            assert(ids.skip(0) =~= ids);
        }
        while i < n
            invariant
                self.wf(),
                n == token_ids@.len(),
                ids == token_ids.deep_view(),
                ids.len() == n,
                i <= n,
                types0 == self.miner_metadata_by_id@,
                epoch0 == self.current_mining_epoch,
                v0 == old(self).mining_view(),
                spec_batch_power_off(v0, types0, epoch0, caller@, ids) == (v2g, None::<Error>),
                *self == (Contract {
                    miners_by_id: self.miners_by_id,
                    hash_ledger: self.hash_ledger,
                    power_events: self.power_events,
                    ..*old(self)
                }),
                spec_batch_power_off(
                    self.mining_view(),
                    types0,
                    epoch0,
                    caller@,
                    ids.skip(i as int),
                ) == spec_batch_power_off(v0, types0, epoch0, caller@, ids),
            decreases n - i,
        {
            let ghost v_cur = self.mining_view();
            proof {
                assert(ids[i as int] == token_ids@[i as int]@);
                assert(ids.skip(i as int)[0] == ids[i as int]);
                assert(ids.skip(i as int).drop_first() =~= ids.skip(i as int + 1));
            }
            let tid = &token_ids[i];
            match self.power_off_miner(caller, tid) {
                Ok(()) => {},
                Err(e) => {
                    proof {
                        let tid2 = ids[i as int];
                        let (v1, e1) = spec_power_off(v_cur, types0, epoch0, caller@, tid2);
                        assert(spec_batch_power_off(
                            v_cur,
                            types0,
                            epoch0,
                            caller@,
                            ids.skip(i as int),
                        ) == (v_cur, e1));
                    }
                    unreached::<()>();
                },
            }
            proof {
                let tid2 = ids[i as int];
                let (v1, e1) = spec_power_off(v_cur, types0, epoch0, caller@, tid2);
                assert(self.mining_view() == v1);
            }
            i = i + 1;
        }
        proof {
            assert(ids.skip(n as int) =~= Seq::<Seq<char>>::empty());
        }
        Ok(())
    }
}

/// A mining pool: an operator account that runs miners on behalf of their
/// owners.
pub struct MiningPool {
    pub owner_id: AccountId,
    pub name: String,
    pub status: PoolStatus,
    pub switch: PowerSwitch,
    pub total_thash: Thash,
    pub miners: StringSet,
}

impl DeepView for MiningPool {
    type V = MiningPool;

    open spec fn deep_view(&self) -> MiningPool {
        *self
    }
}

impl View for MiningPool {
    type V = MiningPool;

    open spec fn view(&self) -> MiningPool {
        *self
    }
}

impl WellFormed for MiningPool {
    open spec fn wf(&self) -> bool {
        self.miners.set_wf()
    }
}

/// A mining pool as handed to read-only callers: the miner set is flattened
/// into a vector.
pub struct HumanReadableMiningPool {
    pub owner_id: AccountId,
    pub name: String,
    pub status: PoolStatus,
    pub switch: PowerSwitch,
    pub total_thash: Thash,
    pub miners: Vec<TokenId>,
}

impl MiningPool {
    /// Flattens the pool record for a read-only caller.
    pub fn to_human_readable(&self) -> (r: HumanReadableMiningPool)
        ensures
            r.owner_id@ == self.owner_id@,
            r.name@ == self.name@,
            r.status == self.status,
            r.switch == self.switch,
            r.total_thash == self.total_thash,
            r.miners.deep_view() == self.miners@,
    {
        HumanReadableMiningPool {
            owner_id: self.owner_id.clone(),
            name: self.name.clone(),
            status: self.status,
            switch: self.switch,
            total_thash: self.total_thash,
            miners: self.miners.to_vec(),
        }
    }
}

} // verus!

//! The strategy: send limits from the peers' incoming congestion,
//! admission limits from the shard's own, and hard stops on outgoing
//! congestion.

use vstd::prelude::*;
use vstd::arithmetic::div_mod::lemma_fundamental_div_mod;
use vstd::arithmetic::div_mod::lemma_fundamental_div_mod_converse;
use vstd::arithmetic::div_mod::lemma_mod_bound;
use std::collections::BTreeMap;
use crate::error::StrategyError;
use crate::model::ChunkExecutionContext;
use crate::model::HostState;
use crate::model::QueueBundle;
use crate::model::QueueState;
use crate::ratio::Ratio;
use crate::receipt::gas_sent_to;
use crate::receipt::CongestedShardsInfo;
use crate::receipt::Receipt;
use crate::strategy::produced::addressed_to;
use crate::strategy::produced::sent_since;
use crate::strategy::semantics::ascending;
use crate::strategy::semantics::assigned_queues;
use crate::strategy::semantics::in_order;
use crate::strategy::semantics::lemma_ascending_unique;
use crate::strategy::semantics::lemma_in_order;
use crate::strategy::semantics::lemma_take_next_to_set;
use crate::strategy::semantics::lemma_without;
use crate::strategy::semantics::lemma_without_push;
use crate::strategy::semantics::without;
use crate::strategy::semantics::blend;
use crate::strategy::semantics::decimal;
use crate::strategy::semantics::digit;
use crate::strategy::semantics::filter_stop;
use crate::strategy::semantics::incoming_congestion;
use crate::strategy::semantics::outgoing_queue_name;
use crate::strategy::semantics::rounded_quotient;
use crate::strategy::semantics::send_limit;
use crate::strategy::semantics::spec_mix;
use crate::strategy::semantics::tenths;
use crate::strategy::semantics::tx_limit;
use crate::strategy::semantics::Outcome;
use crate::strategy::semantics::StrategyState;
use crate::strategy::semantics::FILTER_OUTGOING_CONGESTION_LIMIT_TENTHS;
use crate::strategy::semantics::GLOBAL_OUTGOING_CONGESTION_LIMIT_TENTHS;
use crate::strategy::semantics::MAX_CONGESTION_INCOMING_GAS;
use crate::strategy::semantics::MAX_CONGESTION_MEMORY_CONSUMPTION;
use crate::strategy::semantics::MAX_CONGESTION_OUTGOING_GAS;
use crate::strategy::semantics::MAX_SEND_LIMIT;
use crate::strategy::semantics::MAX_TX_GAS;
use crate::strategy::semantics::MIN_SEND_LIMIT;
use crate::strategy::semantics::MIN_TX_GAS;
use crate::units::GGas;
use crate::units::QueueId;
use crate::units::ShardId;
use crate::units::TransactionId;
use crate::units::GAS_LIMIT;

verus! {

/// The congestion strategy of one shard.
pub struct NepStrategy {
    /// The shard that the strategy works for, once it is initialised.
    pub shard_id: Option<ShardId>,
    /// The shards as they were given at initialisation.
    pub all_shards: Vec<ShardId>,
    /// The given shards without the strategy's own, in the order in which
    /// they were given.
    pub other_shards: Vec<ShardId>,
    /// The queues for receipts going to other shards.
    pub outgoing_queues: BTreeMap<ShardId, QueueId>,
    /// How much gas may still be sent to each of the other shards.
    pub outgoing_gas_limit: BTreeMap<ShardId, GGas>,
}

impl View for NepStrategy {
    type V = StrategyState;

    /// What the strategy holds, with its collections as mathematics.
    open spec fn view(&self) -> StrategyState {
        StrategyState {
            shard_id: self.shard_id,
            all_shards: self.all_shards@,
            other_shards: self.other_shards@,
            outgoing_queues: self.outgoing_queues@,
            outgoing_gas_limit: self.outgoing_gas_limit@,
        }
    }
}

/// Rounding a quotient to the nearest whole number is rounding it down and
/// adding one where the remainder is at least half the divisor. It keeps
/// the quotient between whole numbers that it lies between.
pub proof fn lemma_rounded_quotient(sum: int, den: int, low: int, high: int)
    requires
        0 <= sum,
        0 < den,
        low * den <= sum <= high * den,
    ensures
        rounded_quotient(sum, den) == sum / den + (if 2 * (sum % den) >= den {
            1int
        } else {
            0int
        }),
        low <= rounded_quotient(sum, den) <= high,
{
    let q = sum / den;
    let r = sum % den;
    lemma_fundamental_div_mod(sum, den);
    assert(sum == den * q + r);
    assert(0 <= r < den) by {
        lemma_mod_bound(sum, den);
    }
    if 2 * r >= den {
        assert(2 * sum + den == (q + 1) * (2 * den) + (2 * r - den)) by (nonlinear_arith)
            requires
                sum == den * q + r,
        ;
        lemma_fundamental_div_mod_converse(2 * sum + den, 2 * den, q + 1, 2 * r - den);
        assert(q + 1 <= high) by (nonlinear_arith)
            requires
                sum == den * q + r,
                sum <= high * den,
                2 * r >= den,
                0 < den,
        ;
        assert(low <= q + 1) by (nonlinear_arith)
            requires
                sum == den * q + r,
                low * den <= sum,
                r < den,
                0 < den,
        ;
    } else {
        assert(2 * sum + den == q * (2 * den) + (2 * r + den)) by (nonlinear_arith)
            requires
                sum == den * q + r,
        ;
        lemma_fundamental_div_mod_converse(2 * sum + den, 2 * den, q, 2 * r + den);
        assert(q <= high) by (nonlinear_arith)
            requires
                sum == den * q + r,
                sum <= high * den,
                0 <= r,
                0 < den,
        ;
        assert(low <= q) by (nonlinear_arith)
            requires
                sum == den * q + r,
                low * den <= sum,
                r < den,
                0 < den,
        ;
    }
}

/// The weighted sum that [`blend`] divides fits into 128 bits, and the
/// blend lies between `x` and `y`.
pub proof fn lemma_blend_bounds(x: u64, y: u64, a: Ratio)
    requires
        a.in_unit_interval(),
    ensures
        0 <= x * (a.den - a.num) + y * a.num <= u64::MAX * u64::MAX,
        x <= y ==> x <= blend(x, y, a) <= y,
        y <= x ==> y <= blend(x, y, a) <= x,
{
    let d = a.den as int;
    let n = a.num as int;
    let xi = x as int;
    let yi = y as int;
    let sum = xi * (d - n) + yi * n;
    assert(0 <= sum) by (nonlinear_arith)
        requires
            sum == xi * (d - n) + yi * n,
            0 <= xi,
            0 <= yi,
            0 <= n <= d,
    ;
    if xi <= yi {
        assert(xi * d <= sum <= yi * d) by (nonlinear_arith)
            requires
                sum == xi * (d - n) + yi * n,
                0 <= xi <= yi,
                0 <= n <= d,
        ;
        lemma_rounded_quotient(sum, d, xi, yi);
        assert(yi * d <= u64::MAX * u64::MAX) by (nonlinear_arith)
            requires
                0 <= yi <= u64::MAX,
                0 < d <= u64::MAX,
        ;
    } else {
        assert(yi * d <= sum <= xi * d) by (nonlinear_arith)
            requires
                sum == xi * (d - n) + yi * n,
                0 <= yi <= xi,
                0 <= n <= d,
        ;
        lemma_rounded_quotient(sum, d, yi, xi);
        assert(xi * d <= u64::MAX * u64::MAX) by (nonlinear_arith)
            requires
                0 <= xi <= u64::MAX,
                0 < d <= u64::MAX,
        ;
    }
}

/// The point between `x` and `y` that lies the share `a` of the way from
/// `x` to `y`, rounded to the nearest whole number, a half rounded up. A
/// level outside `[0, 1]` is refused.
pub fn mix(x: u64, y: u64, a: Ratio) -> (result: Result<u64, StrategyError>)
    ensures
        result == spec_mix(x, y, a),
        result.is_ok() <==> a.in_unit_interval(),
        result matches Ok(value) ==> (x <= value <= y || y <= value <= x),
{
    if !a.is_in_unit_interval() {
        return Err(StrategyError::InvalidCongestion(a));
    }
    let rest: u64 = a.den - a.num;
    let from_x: u128 = x as u128;
    let from_y: u128 = y as u128;
    let den: u128 = a.den as u128;
    proof {
        lemma_blend_bounds(x, y, a);
        let sum = x * (a.den - a.num) + y * a.num;
        if x <= y {
            assert(x * a.den <= sum <= y * a.den) by (nonlinear_arith)
                requires
                    sum == x * (a.den - a.num) + y * a.num,
                    0 <= x <= y,
                    0 <= a.num <= a.den,
            ;
            lemma_rounded_quotient(sum, a.den as int, x as int, y as int);
        } else {
            assert(y * a.den <= sum <= x * a.den) by (nonlinear_arith)
                requires
                    sum == x * (a.den - a.num) + y * a.num,
                    0 <= y <= x,
                    0 <= a.num <= a.den,
            ;
            lemma_rounded_quotient(sum, a.den as int, y as int, x as int);
        }
    }
    assert(from_x * rest <= x * (a.den - a.num) + y * a.num) by (nonlinear_arith)
        requires
            from_x == x,
            rest == a.den - a.num,
            0 <= y,
            0 <= a.num,
    ;
    assert(from_y * a.num <= x * (a.den - a.num) + y * a.num) by (nonlinear_arith)
        requires
            from_y == y,
            0 <= x,
            0 <= a.den - a.num,
    ;
    let weighted: u128 = from_x * (rest as u128) + from_y * (a.num as u128);
    let whole: u128 = weighted / den;
    let left: u128 = weighted % den;
    let value: u128 = if 2 * left >= den {
        whole + 1
    } else {
        whole
    };
    Ok(value as u64)
}

/// The one-letter string of the decimal digit for `value`.
fn digit_str(value: u64) -> (text: &'static str)
    requires
        value < 10,
    ensures
        text@ == seq![digit(value as nat)],
{
    proof {
        reveal_strlit("0");
        reveal_strlit("1");
        reveal_strlit("2");
        reveal_strlit("3");
        reveal_strlit("4");
        reveal_strlit("5");
        reveal_strlit("6");
        reveal_strlit("7");
        reveal_strlit("8");
        reveal_strlit("9");
    }
    let text = if value == 0 {
        "0"
    } else if value == 1 {
        "1"
    } else if value == 2 {
        "2"
    } else if value == 3 {
        "3"
    } else if value == 4 {
        "4"
    } else if value == 5 {
        "5"
    } else if value == 6 {
        "6"
    } else if value == 7 {
        "7"
    } else if value == 8 {
        "8"
    } else {
        "9"
    };
    assert(text@ =~= seq![digit(value as nat)]);
    text
}

/// `value` in decimal digits.
pub fn decimal_string(value: u64) -> (text: String)
    ensures
        text@ == decimal(value as nat),
    decreases value,
{
    if value < 10 {
        String::from_str(digit_str(value))
    } else {
        let mut text = decimal_string(value / 10);
        text.append(digit_str(value % 10));
        assert(text@ =~= decimal(value as nat));
        text
    }
}

/// The name under which the queue for receipts to `shard` is registered.
pub fn queue_name_for(shard: ShardId) -> (name: String)
    ensures
        name@ == outgoing_queue_name(shard),
{
    let mut name = String::from_str("outgoing_receipts_");
    let number = decimal_string(shard);
    name.append(number.as_str());
    name
}

/// Puts `shard` into `shards` at its place in the ascending order, unless
/// it is there already.
fn insert_ascending(shards: &mut Vec<ShardId>, shard: ShardId)
    requires
        ascending(old(shards)@),
    ensures
        ascending(final(shards)@),
        final(shards)@.to_set() =~= old(shards)@.to_set().insert(shard),
{
    let mut at: usize = 0;
    while at < shards.len() && shards[at] < shard
        invariant
            at <= shards.len(),
            shards@ == old(shards)@,
            ascending(shards@),
            forall|j: int| 0 <= j < at ==> shards@[j] < shard,
        decreases shards.len() - at,
    {
        at += 1;
    }
    let ghost before = shards@;
    if at < shards.len() && shards[at] == shard {
        assert(before.contains(shard));
        assert(before.to_set() =~= before.to_set().insert(shard));
        return ;
    }
    shards.insert(at, shard);
    proof {
        let after = shards@;
        assert(after == before.insert(at as int, shard));
        assert forall|i: int, j: int| 0 <= i < j < after.len() implies after[i] < after[j] by {
            if j < at {
                assert(after[i] == before[i] && after[j] == before[j]);
            } else if j == at {
                assert(after[i] == before[i]);
            } else if i < at {
                assert(after[i] == before[i] && after[j] == before[j - 1]);
                if at < j - 1 {
                    assert(before[at as int] < before[j - 1]);
                }
            } else if i == at {
                assert(after[j] == before[j - 1]);
                if at < j - 1 {
                    assert(before[at as int] < before[j - 1]);
                }
            } else {
                assert(after[i] == before[i - 1] && after[j] == before[j - 1]);
            }
        }
        assert forall|value: ShardId| after.to_set().contains(value) <==> before.to_set().insert(
            shard,
        ).contains(value) by {
            if after.contains(value) {
                let k = choose|k: int| 0 <= k < after.len() && after[k] == value;
                if k < at {
                    assert(before[k] == value);
                } else if k > at {
                    assert(before[k - 1] == value);
                }
            }
            if before.contains(value) {
                let k = choose|k: int| 0 <= k < before.len() && before[k] == value;
                if k < at {
                    assert(after[k] == value);
                } else {
                    assert(after[k + 1] == value);
                }
            }
            if value == shard {
                assert(after[at as int] == value);
            }
        }
    }
}

impl Default for NepStrategy {
    /// A strategy that has not been initialised.
    fn default() -> (strategy: NepStrategy)
        ensures
            strategy@ == StrategyState::empty(),
            strategy@.wf(),
    {
        NepStrategy::new()
    }
}

impl NepStrategy {
    /// A strategy that has not been initialised.
    pub fn new() -> (strategy: NepStrategy)
        ensures
            strategy@ == StrategyState::empty(),
            strategy@.wf(),
    {
        let strategy = NepStrategy {
            shard_id: None,
            all_shards: Vec::new(),
            other_shards: Vec::new(),
            outgoing_queues: BTreeMap::new(),
            outgoing_gas_limit: BTreeMap::new(),
        };
        assert(strategy@.other_shards.to_set() =~= Set::<ShardId>::empty());
        strategy
    }

    /// Makes the strategy that of shard `id` among `all_shards`. For each
    /// other shard a queue is registered with `queue_factory`, owned by `id`
    /// and named after the other shard, in the order in which the shards
    /// are given.
    pub fn init(&mut self, id: ShardId, all_shards: &[ShardId], queue_factory: &mut QueueBundle)
        requires
            old(self)@ == StrategyState::empty(),
            old(queue_factory).wf(),
        ensures
            final(self)@.wf(),
            final(self)@.initialized(id, all_shards@, old(queue_factory)@.len()),
            final(queue_factory).wf(),
            final(queue_factory)@ == old(queue_factory)@ + final(self)@.registered_queues(id),
    {
        self.shard_id = Some(id);
        let mut i: usize = 0;
        proof {
            lemma_without(all_shards@.take(0), id);
            assert(all_shards@.take(0) =~= Seq::<ShardId>::empty());
            assert(self.other_shards@ =~= without(all_shards@.take(0), id));
        }
        while i < all_shards.len()
            invariant
                i <= all_shards.len(),
                self.shard_id == Some(id),
                self.all_shards@ == all_shards@.take(i as int),
                self.outgoing_queues@ == Map::<ShardId, QueueId>::empty(),
                self.outgoing_gas_limit@ == Map::<ShardId, GGas>::empty(),
                self.other_shards@ == without(all_shards@.take(i as int), id),
            decreases all_shards.len() - i,
        {
            let shard = all_shards[i];
            self.all_shards.push(shard);
            if shard != id {
                self.other_shards.push(shard);
            }
            proof {
                lemma_take_next_to_set(all_shards@, i as int);
                lemma_without_push(all_shards@.take(i as int), shard, id);
            }
            i += 1;
        }
        assert(all_shards@.take(all_shards.len() as int) =~= all_shards@);
        let ghost registered = queue_factory@;
        let mut n: usize = 0;
        assert(self.other_shards@.take(0) =~= Seq::<ShardId>::empty());
        while n < self.other_shards.len()
            invariant
                n <= self.other_shards.len(),
                self.shard_id == Some(id),
                self.all_shards@ == all_shards@,
                self.outgoing_gas_limit@ == Map::<ShardId, GGas>::empty(),
                self.other_shards@ == without(all_shards@, id),
                queue_factory.wf(),
                registered == old(queue_factory)@,
                self.outgoing_queues@ == assigned_queues(
                    self.other_shards@.take(n as int),
                    registered.len(),
                ),
                queue_factory@ == registered + Seq::new(
                    n as nat,
                    |j: int|
                        QueueState {
                            owner: id,
                            name: outgoing_queue_name(self.other_shards@[j]),
                            receipts: Seq::empty(),
                        },
                ),
            decreases self.other_shards.len() - n,
        {
            let peer = self.other_shards[n];
            let name = queue_name_for(peer);
            let queue = queue_factory.register_queue(id, name);
            self.outgoing_queues.insert(peer, queue);
            proof {
                let peers = self.other_shards@;
                lemma_take_next_to_set(peers, n as int);
                assert(peers.take(n + 1).drop_last() =~= peers.take(n as int));
                assert(queue_factory@ =~= registered + Seq::new(
                    (n + 1) as nat,
                    |j: int|
                        QueueState {
                            owner: id,
                            name: outgoing_queue_name(peers[j]),
                            receipts: Seq::empty(),
                        },
                ));
            }
            n += 1;
        }
        let count = queue_factory.len();
        proof {
            let peers = self.other_shards@;
            assert(peers.take(peers.len() as int) =~= peers);
            assert(queue_factory@ =~= registered + self@.registered_queues(id));
            assert(registered.len() + peers.len() == count);
            self@.lemma_initialized_wf(id, all_shards@, registered.len());
        }
    }

    /// The peers, each once, in ascending order: the order in which the
    /// steps of a chunk visit them.
    pub fn peers_in_order(&self) -> (peers: Vec<ShardId>)
        ensures
            peers@ == self@.peers(),
    {
        let mut peers: Vec<ShardId> = Vec::new();
        let mut i: usize = 0;
        assert(self.other_shards@.take(0) =~= Seq::<ShardId>::empty());
        assert(peers@.to_set() =~= self.other_shards@.take(0).to_set());
        while i < self.other_shards.len()
            invariant
                i <= self.other_shards.len(),
                ascending(peers@),
                peers@.to_set() =~= self.other_shards@.take(i as int).to_set(),
            decreases self.other_shards.len() - i,
        {
            insert_ascending(&mut peers, self.other_shards[i]);
            proof {
                lemma_take_next_to_set(self.other_shards@, i as int);
            }
            i += 1;
        }
        proof {
            assert(self.other_shards@.take(self.other_shards.len() as int)
                =~= self.other_shards@);
            lemma_in_order(self.other_shards@);
            lemma_ascending_unique(peers@, in_order(self.other_shards@));
        }
        peers
    }

    /// The shard that the strategy works for.
    pub fn shard_id(&self) -> (result: Result<ShardId, StrategyError>)
        ensures
            result == (match self@.shard_id {
                Some(id) => Ok::<ShardId, StrategyError>(id),
                None => Err(StrategyError::UninitializedStrategy),
            }),
    {
        match self.shard_id {
            Some(id) => Ok(id),
            None => Err(StrategyError::UninitializedStrategy),
        }
    }

    /// What `shard` published in the previous block. A shard that
    /// published nothing counts as not congested.
    pub fn get_info(&self, ctx: &ChunkExecutionContext, shard: ShardId) -> (info:
        CongestedShardsInfo)
        ensures
            info == ctx@.info(shard),
    {
        match ctx.prev_block_info().get(&shard) {
            Some(info) => *info,
            None => CongestedShardsInfo::default(),
        }
    }

    /// Whether some shard is so congested that all shards stop accepting
    /// transactions.
    pub fn get_global_stop(&self, ctx: &ChunkExecutionContext) -> (stop: bool)
        ensures
            stop == self@.global_stop(ctx@),
    {
        let limit = Ratio { num: GLOBAL_OUTGOING_CONGESTION_LIMIT_TENTHS, den: 10 };
        let mut i: usize = 0;
        while i < self.all_shards.len()
            invariant
                i <= self.all_shards.len(),
                limit == tenths(GLOBAL_OUTGOING_CONGESTION_LIMIT_TENTHS),
                forall|j: int|
                    0 <= j < i ==> !(#[trigger] ctx@.info(
                        self.all_shards@[j],
                    )).outgoing_congestion.spec_exceeds(limit),
            decreases self.all_shards.len() - i,
        {
            let info = self.get_info(ctx, self.all_shards[i]);
            if info.outgoing_congestion.exceeds(limit) {
                assert(0 <= i < self@.all_shards.len() && ctx@.info(
                    self@.all_shards[i as int],
                ).outgoing_congestion.spec_exceeds(
                    tenths(GLOBAL_OUTGOING_CONGESTION_LIMIT_TENTHS),
                ));
                return true;
            }
            i += 1;
        }
        false
    }

    /// Whether the shard that `tx` goes to is so congested that the
    /// transaction is turned away.
    pub fn get_filter_stop(&self, ctx: &ChunkExecutionContext, tx: TransactionId) -> (stop: bool)
        requires
            tx < ctx@.transactions.len(),
        ensures
            stop == filter_stop(ctx@, tx),
    {
        let limit = Ratio { num: FILTER_OUTGOING_CONGESTION_LIMIT_TENTHS, den: 10 };
        let receiver = ctx.tx_receiver(tx);
        let info = self.get_info(ctx, receiver);
        info.outgoing_congestion.exceeds(limit)
    }

    /// Sends `receipt` on or keeps it back. A receipt to the strategy's own
    /// shard is always sent on.
    pub fn forward_or_buffer(
        &mut self,
        ctx: &mut ChunkExecutionContext,
        receipt: Receipt,
    ) -> (result: Result<(), StrategyError>)
        requires
            old(ctx).wf(),
            old(self)@.wf(),
            old(self)@.registered_in(old(ctx)@),
        ensures
            final(ctx).wf(),
            final(self)@.wf(),
            final(self)@.registered_in(final(ctx)@),
            (Outcome { strategy: final(self)@, host: final(ctx)@, result }) == old(
                self,
            )@.forward_or_buffer(old(ctx)@, receipt),
            old(self)@.shard_id == Some(receipt.receiver) ==> result.is_ok() && final(self)@
                == old(self)@ && final(ctx)@ == old(ctx)@.forward(receipt),
    {
        let own = match self.shard_id {
            Some(id) => id,
            None => {
                return Err(StrategyError::UninitializedStrategy);
            },
        };
        proof {
            old(self)@.lemma_forward_or_buffer_frame(old(ctx)@, receipt);
            let after = old(self)@.forward_or_buffer(old(ctx)@, receipt);
            old(self)@.lemma_registered_kept(old(ctx)@, after.strategy, after.host);
        }
        if receipt.receiver == own {
            ctx.forward_receipt(receipt);
            return Ok(());
        }
        proof {
            self@.lemma_peer_has_queue(receipt.receiver);
        }
        let queue = match self.outgoing_queues.get(&receipt.receiver) {
            Some(queue) => *queue,
            None => {
                return Err(StrategyError::UnknownShard(receipt.receiver));
            },
        };
        let limit = match self.outgoing_gas_limit.get(&receipt.receiver) {
            Some(limit) => *limit,
            None => {
                return Err(StrategyError::MissingSendLimit(receipt.receiver));
            },
        };
        if receipt.attached_gas > limit {
            ctx.push_back(queue, receipt);
            return Ok(());
        }
        self.outgoing_gas_limit.insert(receipt.receiver, limit - receipt.attached_gas);
        ctx.forward_receipt(receipt);
        Ok(())
    }

    /// Sends on or keeps back each of `receipts` in turn, and stops at the
    /// first that fails.
    pub fn forward_or_buffer_all(
        &mut self,
        ctx: &mut ChunkExecutionContext,
        receipts: Vec<Receipt>,
    ) -> (result: Result<(), StrategyError>)
        requires
            old(ctx).wf(),
            old(self)@.wf(),
            old(self)@.registered_in(old(ctx)@),
        ensures
            final(ctx).wf(),
            final(self)@.wf(),
            final(self)@.registered_in(final(ctx)@),
            (Outcome { strategy: final(self)@, host: final(ctx)@, result }) == old(
                self,
            )@.forward_or_buffer_all(old(ctx)@, receipts@),
    {
        let mut i: usize = 0;
        assert(receipts@.skip(0) =~= receipts@);
        while i < receipts.len()
            invariant
                i <= receipts.len(),
                ctx.wf(),
                self@.wf(),
                self@.registered_in(ctx@),
                self@.forward_or_buffer_all(ctx@, receipts@.skip(i as int)) == old(
                    self,
                )@.forward_or_buffer_all(old(ctx)@, receipts@),
            decreases receipts.len() - i,
        {
            let ghost rest = receipts@.skip(i as int);
            assert(rest[0] == receipts@[i as int]);
            assert(rest.drop_first() =~= receipts@.skip(i + 1));
            match self.forward_or_buffer(ctx, receipts[i]) {
                Err(error) => {
                    return Err(error);
                },
                Ok(()) => {},
            }
            i += 1;
        }
        Ok(())
    }

    /// Step 1: computes how much may be sent to each peer in this chunk
    /// from what the peer published about its incoming congestion. What was
    /// left of the limits of the chunk before is dropped.
    pub fn init_send_limit(&mut self, ctx: &ChunkExecutionContext) -> (result: Result<
        (),
        StrategyError,
    >)
        requires
            old(self)@.wf(),
        ensures
            final(self)@.wf(),
            forall|host: HostState|
                old(self)@.registered_in(host) ==> #[trigger] final(self)@.registered_in(host),
            (Outcome { strategy: final(self)@, host: ctx@, result }) == old(self)@.init_send_limit(
                ctx@,
            ),
    {
        let peers = self.peers_in_order();
        self.outgoing_gas_limit.clear();
        let mut i: usize = 0;
        while i < peers.len()
            invariant
                i <= peers.len(),
                peers@ == self@.peers(),
                old(self)@.wf(),
                self@ == (StrategyState {
                    outgoing_gas_limit: self@.outgoing_gas_limit,
                    ..old(self)@
                }),
                self@.init_send_limit_from(ctx@, i as int) == old(self)@.init_send_limit(ctx@),
            decreases peers.len() - i,
        {
            let peer = peers[i];
            let info = self.get_info(ctx, peer);
            match mix(MAX_SEND_LIMIT, MIN_SEND_LIMIT, info.incoming_congestion) {
                Err(error) => {
                    proof {
                        assert forall|host: HostState| old(self)@.registered_in(host) implies (
                        #[trigger] self@.registered_in(host)) by {
                            old(self)@.lemma_limits_only(self@, host);
                        }
                        old(self)@.lemma_limits_only(self@, ctx@);
                    }
                    return Err(error);
                },
                Ok(limit) => {
                    self.outgoing_gas_limit.insert(peer, limit);
                },
            }
            i += 1;
        }
        proof {
            assert forall|host: HostState| old(self)@.registered_in(host) implies (
            #[trigger] self@.registered_in(host)) by {
                old(self)@.lemma_limits_only(self@, host);
            }
            old(self)@.lemma_limits_only(self@, ctx@);
        }
        Ok(())
    }

    /// Sends on what is buffered for `peer`, from the front of the buffer,
    /// for as long as the gas of the front fits into what may still be sent.
    pub fn drain_queue(&mut self, ctx: &mut ChunkExecutionContext, peer: ShardId)
        requires
            old(ctx).wf(),
            old(self)@.wf(),
            old(self)@.registered_in(old(ctx)@),
            old(self)@.outgoing_queues.contains_key(peer),
            old(self)@.outgoing_gas_limit.contains_key(peer),
        ensures
            final(ctx).wf(),
            final(self)@.wf(),
            final(self)@.registered_in(final(ctx)@),
            (Outcome { strategy: final(self)@, host: final(ctx)@, result: Ok(()) }) == old(
                self,
            )@.drain_queue(old(ctx)@, peer),
    {
        let queue = match self.outgoing_queues.get(&peer) {
            Some(queue) => *queue,
            None => {
                return ;
            },
        };
        let mut limit = match self.outgoing_gas_limit.get(&peer) {
            Some(limit) => *limit,
            None => {
                return ;
            },
        };
        loop
            invariant
                ctx.wf(),
                self@.wf(),
                self@.registered_in(ctx@),
                self@.outgoing_queues.contains_key(peer),
                self@.outgoing_queues[peer] == queue,
                self@.outgoing_gas_limit.contains_key(peer),
                self@.outgoing_gas_limit[peer] == limit,
                self@.drain_queue(ctx@, peer) == old(self)@.drain_queue(old(ctx)@, peer),
            decreases ctx@.queues[queue as int].receipts.len(),
        {
            let receipt = match ctx.queue(queue).front() {
                Some(receipt) => receipt,
                None => {
                    return ;
                },
            };
            if receipt.attached_gas > limit {
                return ;
            }
            let ghost before = self@;
            let ghost before_host = ctx@;
            ctx.pop_front(queue);
            limit = limit - receipt.attached_gas;
            self.outgoing_gas_limit.insert(peer, limit);
            ctx.forward_receipt(receipt);
            proof {
                before.lemma_registered_kept(before_host, self@, ctx@);
            }
        }
    }

    /// Step 2: drains the receipts buffered in earlier chunks. For each
    /// peer in turn as many are sent on as the peer's limit allows, and
    /// the limit shrinks with every receipt sent.
    pub fn process_outgoing_receipts(&mut self, ctx: &mut ChunkExecutionContext) -> (result: Result<
        (),
        StrategyError,
    >)
        requires
            old(ctx).wf(),
            old(self)@.wf(),
            old(self)@.registered_in(old(ctx)@),
        ensures
            final(ctx).wf(),
            final(self)@.wf(),
            final(self)@.registered_in(final(ctx)@),
            (Outcome { strategy: final(self)@, host: final(ctx)@, result }) == old(
                self,
            )@.process_outgoing_receipts(old(ctx)@),
    {
        let peers = self.peers_in_order();
        let mut i: usize = 0;
        while i < peers.len()
            invariant
                i <= peers.len(),
                peers@ == self@.peers(),
                ctx.wf(),
                self@.wf(),
                self@.registered_in(ctx@),
                self@.process_outgoing_receipts_from(ctx@, i as int) == old(
                    self,
                )@.process_outgoing_receipts(old(ctx)@),
            decreases peers.len() - i,
        {
            let peer = peers[i];
            if self.outgoing_gas_limit.get(&peer).is_none() {
                return Err(StrategyError::MissingSendLimit(peer));
            }
            proof {
                self@.lemma_peers();
                assert(self@.peers().to_set().contains(peer));
                self@.lemma_drain_queue_frame(ctx@, peer);
            }
            self.drain_queue(ctx, peer);
            i += 1;
        }
        Ok(())
    }

    /// How full the queue of incoming receipts is, by attached gas.
    pub fn get_incoming_congestion(&self, ctx: &ChunkExecutionContext) -> (level: Ratio)
        requires
            ctx.wf(),
        ensures
            level == incoming_congestion(ctx@),
            level.in_unit_interval(),
    {
        Ratio::clamped(ctx.incoming_receipts().attached_gas(), MAX_CONGESTION_INCOMING_GAS)
    }

    /// How full the outgoing buffers are, by bytes.
    pub fn get_memory_congestion(&self, ctx: &ChunkExecutionContext) -> (level: Ratio)
        requires
            ctx.wf(),
            self@.wf(),
            self@.registered_in(ctx@),
        ensures
            level == self@.memory_congestion(ctx@),
            level.in_unit_interval(),
    {
        let peers = self.peers_in_order();
        let mut memory_consumption: u64 = 0;
        let mut i: usize = 0;
        while i < peers.len()
            invariant
                i <= peers.len(),
                peers@ == self@.peers(),
                ctx.wf(),
                self@.wf(),
                self@.registered_in(ctx@),
                memory_consumption == Ratio::spec_clamped(
                    self@.buffered_size(ctx@, i as int),
                    MAX_CONGESTION_MEMORY_CONSUMPTION,
                ).num,
            decreases peers.len() - i,
        {
            let peer = peers[i];
            proof {
                self@.lemma_peers();
                assert(self@.peers().to_set().contains(peer));
            }
            let size = match self.outgoing_queues.get(&peer) {
                Some(queue) => ctx.queue(*queue).size(),
                None => 0,
            };
            let part = Ratio::clamped(size, MAX_CONGESTION_MEMORY_CONSUMPTION).num;
            memory_consumption = if memory_consumption + part
                >= MAX_CONGESTION_MEMORY_CONSUMPTION {
                MAX_CONGESTION_MEMORY_CONSUMPTION
            } else {
                memory_consumption + part
            };
            i += 1;
        }
        Ratio { num: memory_consumption, den: MAX_CONGESTION_MEMORY_CONSUMPTION }
    }

    /// How full the outgoing buffers are, by attached gas.
    pub fn get_gas_congestion(&self, ctx: &ChunkExecutionContext) -> (level: Ratio)
        requires
            ctx.wf(),
            self@.wf(),
            self@.registered_in(ctx@),
        ensures
            level == self@.gas_congestion(ctx@),
            level.in_unit_interval(),
    {
        let peers = self.peers_in_order();
        let mut gas_backlog: u64 = 0;
        let mut i: usize = 0;
        while i < peers.len()
            invariant
                i <= peers.len(),
                peers@ == self@.peers(),
                ctx.wf(),
                self@.wf(),
                self@.registered_in(ctx@),
                gas_backlog == Ratio::spec_clamped(
                    self@.buffered_gas(ctx@, i as int),
                    MAX_CONGESTION_OUTGOING_GAS,
                ).num,
            decreases peers.len() - i,
        {
            let peer = peers[i];
            proof {
                self@.lemma_peers();
                assert(self@.peers().to_set().contains(peer));
            }
            let gas = match self.outgoing_queues.get(&peer) {
                Some(queue) => ctx.queue(*queue).attached_gas(),
                None => 0,
            };
            let part = Ratio::clamped(gas, MAX_CONGESTION_OUTGOING_GAS).num;
            gas_backlog = if gas_backlog + part >= MAX_CONGESTION_OUTGOING_GAS {
                MAX_CONGESTION_OUTGOING_GAS
            } else {
                gas_backlog + part
            };
            i += 1;
        }
        Ratio { num: gas_backlog, den: MAX_CONGESTION_OUTGOING_GAS }
    }

    /// How full the outgoing buffers are: the worse of bytes and gas.
    pub fn get_outgoing_congestion(&self, ctx: &ChunkExecutionContext) -> (level: Ratio)
        requires
            ctx.wf(),
            self@.wf(),
            self@.registered_in(ctx@),
        ensures
            level == self@.outgoing_congestion(ctx@),
            level.in_unit_interval(),
    {
        self.get_memory_congestion(ctx).max(self.get_gas_congestion(ctx))
    }

    /// Step 3: turns new transactions into receipts for as long as the gas
    /// burnt is under a limit that shrinks with the shard's own incoming
    /// congestion. The first transaction that meets a stop ends the step.
    /// The receipts are sent on or buffered.
    #[verifier::loop_isolation(false)]
    pub fn process_new_transactions(&mut self, ctx: &mut ChunkExecutionContext) -> (result: Result<
        (),
        StrategyError,
    >)
        requires
            old(ctx).wf(),
            old(self)@.wf(),
            old(self)@.registered_in(old(ctx)@),
        ensures
            final(ctx).wf(),
            final(self)@.wf(),
            final(self)@.registered_in(final(ctx)@),
            (Outcome { strategy: final(self)@, host: final(ctx)@, result }) == old(
                self,
            )@.process_new_transactions(old(ctx)@),
            forall|peer: ShardId|
                #![trigger final(self)@.budget(final(ctx)@, peer)]
                old(self)@.outgoing_gas_limit.contains_key(peer) && old(self)@.shard_id != Some(
                    peer,
                ) ==> final(self)@.outgoing_gas_limit.contains_key(peer) && final(self)@.budget(
                    final(ctx)@,
                    peer,
                ) == old(self)@.budget(old(ctx)@, peer),
            forall|queue: int|
                0 <= queue < old(ctx)@.queues.len() ==> old(ctx)@.queues[
                    queue
                ].receipts.is_prefix_of(#[trigger] final(ctx)@.queues[queue].receipts),
    {
        proof {
            assert forall|peer: ShardId|
                old(self)@.dispatched_by(
                    old(ctx)@,
                    #[trigger] old(self)@.process_new_transactions(old(ctx)@),
                    peer,
                ) by {
                old(self)@.lemma_admit_under_dispatched(old(ctx)@, tx_limit(old(ctx)@), peer);
            }
            let after = old(self)@.process_new_transactions(old(ctx)@);
            assert(old(self)@.dispatched_by(old(ctx)@, after, 0));
            assert forall|peer: ShardId|
                old(self)@.outgoing_gas_limit.contains_key(peer) && old(self)@.shard_id != Some(
                    peer,
                ) implies after.strategy.outgoing_gas_limit.contains_key(peer)
                && #[trigger] after.strategy.budget(after.host, peer) == old(self)@.budget(
                old(ctx)@,
                peer,
            ) by {
                assert(old(self)@.dispatched_by(old(ctx)@, after, peer));
                assert(after.strategy.outgoing_gas_limit.dom().contains(peer));
            }
        }
        let incoming_congestion = self.get_incoming_congestion(ctx);
        let limit = match mix(MAX_TX_GAS, MIN_TX_GAS, incoming_congestion) {
            Ok(limit) => limit,
            Err(error) => {
                return Err(error);
            },
        };
        while ctx.gas_burnt() < limit
            invariant
                ctx.wf(),
                self@.wf(),
                self@.registered_in(ctx@),
                self@.admit_under(ctx@, limit) == old(self)@.process_new_transactions(old(ctx)@),
            decreases ctx@.incoming_transactions.len(),
        {
            let ghost before = ctx@;
            let tx = match ctx.pop_transaction() {
                Some(tx) => tx,
                None => {
                    return Ok(());
                },
            };
            proof {
                self@.lemma_registered_kept(before, self@, ctx@);
            }
            if self.get_global_stop(ctx) {
                return Ok(());
            }
            if self.get_filter_stop(ctx, tx) {
                return Ok(());
            }
            let ghost popped = ctx@;
            let receipts = ctx.accept_transaction(tx);
            proof {
                self@.lemma_registered_kept(popped, self@, ctx@);
                self@.lemma_forward_or_buffer_all_frame(ctx@, receipts@);
            }
            match self.forward_or_buffer_all(ctx, receipts) {
                Err(error) => {
                    return Err(error);
                },
                Ok(()) => {},
            }
        }
        Ok(())
    }

    /// Step 4: executes incoming receipts for as long as the gas burnt is
    /// under the chunk's ceiling, and sends on or buffers what they
    /// produce. What is not reached waits for the next chunk.
    #[verifier::loop_isolation(false)]
    pub fn process_incoming_receipts(&mut self, ctx: &mut ChunkExecutionContext) -> (result: Result<
        (),
        StrategyError,
    >)
        requires
            old(ctx).wf(),
            old(self)@.wf(),
            old(self)@.registered_in(old(ctx)@),
        ensures
            final(ctx).wf(),
            final(self)@.wf(),
            final(self)@.registered_in(final(ctx)@),
            (Outcome { strategy: final(self)@, host: final(ctx)@, result }) == old(
                self,
            )@.process_incoming_receipts(old(ctx)@),
            forall|peer: ShardId|
                #![trigger final(self)@.budget(final(ctx)@, peer)]
                old(self)@.outgoing_gas_limit.contains_key(peer) && old(self)@.shard_id != Some(
                    peer,
                ) ==> final(self)@.outgoing_gas_limit.contains_key(peer) && final(self)@.budget(
                    final(ctx)@,
                    peer,
                ) == old(self)@.budget(old(ctx)@, peer),
            forall|queue: int|
                0 <= queue < old(ctx)@.queues.len() ==> old(ctx)@.queues[
                    queue
                ].receipts.is_prefix_of(#[trigger] final(ctx)@.queues[queue].receipts),
    {
        proof {
            assert forall|peer: ShardId|
                old(self)@.dispatched_by(
                    old(ctx)@,
                    #[trigger] old(self)@.process_incoming_receipts(old(ctx)@),
                    peer,
                ) by {
                old(self)@.lemma_process_incoming_receipts_dispatched(old(ctx)@, peer);
            }
            let after = old(self)@.process_incoming_receipts(old(ctx)@);
            assert(old(self)@.dispatched_by(old(ctx)@, after, 0));
            assert forall|peer: ShardId|
                old(self)@.outgoing_gas_limit.contains_key(peer) && old(self)@.shard_id != Some(
                    peer,
                ) implies after.strategy.outgoing_gas_limit.contains_key(peer)
                && #[trigger] after.strategy.budget(after.host, peer) == old(self)@.budget(
                old(ctx)@,
                peer,
            ) by {
                assert(old(self)@.dispatched_by(old(ctx)@, after, peer));
                assert(after.strategy.outgoing_gas_limit.dom().contains(peer));
            }
        }
        while ctx.gas_burnt() < GAS_LIMIT
            invariant
                ctx.wf(),
                self@.wf(),
                self@.registered_in(ctx@),
                self@.process_incoming_receipts(ctx@) == old(self)@.process_incoming_receipts(
                    old(ctx)@,
                ),
            decreases ctx@.incoming_receipts.len(),
        {
            let ghost before = ctx@;
            let receipt = match ctx.pop_incoming_receipt() {
                Some(receipt) => receipt,
                None => {
                    return Ok(());
                },
            };
            let outgoing = ctx.execute_receipt(receipt);
            proof {
                self@.lemma_registered_kept(before, self@, ctx@);
                self@.lemma_forward_or_buffer_all_frame(ctx@, outgoing@);
            }
            match self.forward_or_buffer_all(ctx, outgoing) {
                Err(error) => {
                    return Err(error);
                },
                Ok(()) => {},
            }
        }
        Ok(())
    }

    /// Step 6: computes the shard's own congestion and publishes it in the
    /// current block, for the peers to read in the next.
    pub fn update_block_info(&mut self, ctx: &mut ChunkExecutionContext) -> (result: Result<
        (),
        StrategyError,
    >)
        requires
            old(ctx).wf(),
            old(self)@.wf(),
            old(self)@.registered_in(old(ctx)@),
        ensures
            final(ctx).wf(),
            final(self)@.wf(),
            final(self)@.registered_in(final(ctx)@),
            (Outcome { strategy: final(self)@, host: final(ctx)@, result }) == old(
                self,
            )@.update_block_info(old(ctx)@),
            result.is_ok() ==> ({
                let own = final(ctx)@.current_block_info[old(self)@.shard_id.unwrap()];
                &&& final(ctx)@.current_block_info.contains_key(old(self)@.shard_id.unwrap())
                &&& own.incoming_congestion.in_unit_interval()
                &&& own.outgoing_congestion.in_unit_interval()
            }),
    {
        let own = match self.shard_id {
            Some(id) => id,
            None => {
                return Err(StrategyError::UninitializedStrategy);
            },
        };
        let incoming_congestion = self.get_incoming_congestion(ctx);
        let outgoing_congestion = self.get_outgoing_congestion(ctx);
        let info = CongestedShardsInfo { incoming_congestion, outgoing_congestion };
        let ghost before = ctx@;
        ctx.publish(own, info);
        proof {
            self@.lemma_registered_kept(before, self@, ctx@);
        }
        Ok(())
    }

    /// Runs one chunk: the steps in their order, up to the first that fails.
    pub fn compute_chunk(&mut self, ctx: &mut ChunkExecutionContext) -> (result: Result<
        (),
        StrategyError,
    >)
        requires
            old(ctx).wf(),
            old(self)@.wf(),
            old(self)@.registered_in(old(ctx)@),
        ensures
            final(ctx).wf(),
            final(self)@.wf(),
            final(self)@.registered_in(final(ctx)@),
            (Outcome { strategy: final(self)@, host: final(ctx)@, result }) == old(
                self,
            )@.compute_chunk(old(ctx)@),
            result.is_err() ==> final(ctx)@.current_block_info == old(ctx)@.current_block_info,
            result.is_ok() ==> ({
                let own = old(self)@.shard_id.unwrap();
                &&& final(ctx)@.current_block_info == old(ctx)@.current_block_info.insert(
                    own,
                    final(self)@.own_info(final(ctx)@),
                )
                &&& final(ctx)@.current_block_info[own].incoming_congestion.in_unit_interval()
                &&& final(ctx)@.current_block_info[own].outgoing_congestion.in_unit_interval()
            }),
            old(ctx)@.forwarded.is_prefix_of(final(ctx)@.forwarded),
            old(self)@.no_local_buffered(old(ctx)@) ==> final(self)@.no_local_buffered(
                final(ctx)@,
            ),
            old(self)@.buffers_addressed(old(ctx)@) ==> final(self)@.buffers_addressed(
                final(ctx)@,
            ),
            forall|peer: ShardId|
                old(self)@.buffers_addressed(old(ctx)@) && old(self)@.peers().contains(peer)
                    ==> (match #[trigger] send_limit(old(ctx)@.info(peer)) {
                    Ok(limit) => gas_sent_to(
                        final(ctx)@.forwarded.skip(old(ctx)@.forwarded.len() as int),
                        peer,
                    ) <= limit,
                    Err(_) => final(ctx)@.forwarded == old(ctx)@.forwarded,
                }),
            old(self)@.chunk_failure(old(ctx)@, result),
            result.is_ok() && old(self)@.no_local_buffered(old(ctx)@) ==> addressed_to(
                sent_since(old(ctx)@, final(ctx)@),
                old(self)@.shard_id.unwrap(),
            ) == addressed_to(
                old(self)@.produced_receipts(old(ctx)@),
                old(self)@.shard_id.unwrap(),
            ),
    {
        proof {
            old(self)@.lemma_compute_chunk(old(ctx)@);
            if old(self)@.compute_chunk(old(ctx)@).result.is_ok() && old(self)@.no_local_buffered(
                old(ctx)@,
            ) {
                old(self)@.lemma_produced_local_receipts_forwarded(old(ctx)@);
            }
        }
        if self.shard_id.is_none() {
            return Err(StrategyError::UninitializedStrategy);
        }
        match self.init_send_limit(ctx) {
            Err(error) => {
                return Err(error);
            },
            Ok(()) => {},
        }
        match self.process_outgoing_receipts(ctx) {
            Err(error) => {
                return Err(error);
            },
            Ok(()) => {},
        }
        match self.process_new_transactions(ctx) {
            Err(error) => {
                return Err(error);
            },
            Ok(()) => {},
        }
        match self.process_incoming_receipts(ctx) {
            Err(error) => {
                return Err(error);
            },
            Ok(()) => {},
        }
        self.update_block_info(ctx)
    }
}

} // verus!

//! What the first step of a chunk leaves: the send limits.

use vstd::prelude::*;
use crate::error::StrategyError;
use crate::model::HostState;
use crate::ratio::Ratio;
use crate::strategy::nep::lemma_blend_bounds;
use crate::strategy::nep::lemma_rounded_quotient;
use crate::strategy::semantics::blend;
use crate::strategy::semantics::send_limit;
use crate::strategy::semantics::spec_mix;
use crate::strategy::semantics::StrategyState;
use crate::strategy::semantics::MAX_SEND_LIMIT;
use crate::strategy::semantics::MIN_SEND_LIMIT;
use crate::units::GGas;
use crate::units::ShardId;

verus! {

/// Without congestion the blend is its first end, with full congestion its second.
pub proof fn lemma_mix_ends(x: u64, y: u64, den: u64)
    requires
        den > 0,
    ensures
        spec_mix(x, y, Ratio { num: 0, den }) == Ok::<u64, StrategyError>(x),
        spec_mix(x, y, Ratio { num: den, den }) == Ok::<u64, StrategyError>(y),
{
    let d = den as int;
    let xi = x as int;
    let yi = y as int;
    assert(xi * (d - 0) + yi * 0 == xi * d && xi * (d - d) + yi * d == yi * d)
        by (nonlinear_arith);
    assert(0 <= xi * d && 0 <= yi * d) by (nonlinear_arith)
        requires
            0 <= xi,
            0 <= yi,
            0 < d,
    ;
    lemma_rounded_quotient(xi * d, d, xi, xi);
    lemma_rounded_quotient(yi * d, d, yi, yi);
}

impl StrategyState {
    /// Computing the send limits from position `from` on leaves host and
    /// peers alone. It succeeds exactly if every peer from there on
    /// published a level that can be turned into a limit; then each of
    /// these peers has that limit, and the limits of all others are as
    /// they were.
    pub proof fn lemma_init_send_limit_from(self, host: HostState, from: int)
        requires
            0 <= from,
        ensures
            ({
                let after = self.init_send_limit_from(host, from);
                &&& after.host == host
                &&& after.strategy == StrategyState {
                    outgoing_gas_limit: after.strategy.outgoing_gas_limit,
                    ..self
                }
                &&& after.result.is_ok() <==> forall|k: int|
                    from <= k < self.peers().len() ==> (#[trigger] send_limit(
                        host.info(self.peers()[k]),
                    )).is_ok()
                &&& after.result.is_ok() ==> forall|k: int|
                    from <= k < self.peers().len() ==> {
                        &&& after.strategy.outgoing_gas_limit.contains_key(
                            #[trigger] self.peers()[k],
                        )
                        &&& Ok::<GGas, StrategyError>(
                            after.strategy.outgoing_gas_limit[self.peers()[k]],
                        ) == send_limit(host.info(self.peers()[k]))
                    }
                &&& after.result.is_ok() ==> forall|shard: ShardId|
                    #![trigger after.strategy.outgoing_gas_limit.contains_key(shard)]
                    (forall|k: int|
                        from <= k < self.peers().len() ==> self.peers()[k] != shard) ==> (
                    after.strategy.outgoing_gas_limit.contains_key(shard)
                        <==> self.outgoing_gas_limit.contains_key(shard))
                        && after.strategy.outgoing_gas_limit[shard]
                        == self.outgoing_gas_limit[shard]
            }),
        decreases self.peers().len() - from,
    {
        if from >= self.peers().len() {
        } else {
            let peer = self.peers()[from];
            match send_limit(host.info(peer)) {
                Err(error) => {},
                Ok(limit) => {
                    let next = self.with_limit(peer, limit);
                    next.lemma_init_send_limit_from(host, from + 1);
                    let after = self.init_send_limit_from(host, from);
                    assert forall|k: int| from <= k < self.peers().len() implies {
                        &&& after.strategy.outgoing_gas_limit.contains_key(
                            #[trigger] self.peers()[k],
                        )
                        &&& Ok::<GGas, StrategyError>(
                            after.strategy.outgoing_gas_limit[self.peers()[k]],
                        ) == send_limit(host.info(self.peers()[k]))
                    } || !after.result.is_ok() by {
                        if after.result.is_ok() && k == from {
                            if forall|j: int|
                                from + 1 <= j < self.peers().len() ==> self.peers()[j]
                                    != peer {
                                assert(after.strategy.outgoing_gas_limit.contains_key(peer));
                            } else {
                                let j = choose|j: int|
                                    from + 1 <= j < self.peers().len() && self.peers()[j]
                                        == peer;
                                assert(after.strategy.outgoing_gas_limit.contains_key(
                                    next.peers()[j],
                                ));
                            }
                        } else if after.result.is_ok() {
                            assert(after.strategy.outgoing_gas_limit.contains_key(
                                next.peers()[k],
                            ));
                        }
                    }
                    if after.result.is_ok() {
                        assert forall|k: int| from <= k < self.peers().len() implies (
                        #[trigger] send_limit(host.info(self.peers()[k]))).is_ok() by {
                            if k > from {
                                assert(send_limit(host.info(next.peers()[k])).is_ok());
                            }
                        }
                    }
                },
            }
        }
    }

    /// After the first step of a chunk every peer has the limit that its
    /// published incoming congestion allows, and nobody else has a limit.
    pub proof fn lemma_init_send_limit(self, host: HostState)
        ensures
            ({
                let after = self.init_send_limit(host);
                &&& after.host == host
                &&& after.strategy == StrategyState {
                    outgoing_gas_limit: after.strategy.outgoing_gas_limit,
                    ..self
                }
                &&& after.result.is_ok() <==> forall|k: int|
                    0 <= k < self.peers().len() ==> (#[trigger] send_limit(
                        host.info(self.peers()[k]),
                    )).is_ok()
                &&& after.result.is_ok() ==> after.strategy.outgoing_gas_limit.dom()
                    =~= self.peers().to_set()
                &&& after.result.is_ok() ==> forall|peer: ShardId|
                    self.peers().contains(peer) ==> Ok::<GGas, StrategyError>(
                        #[trigger] after.strategy.outgoing_gas_limit[peer],
                    ) == send_limit(host.info(peer))
            }),
    {
        let cleared = self.without_limits();
        cleared.lemma_init_send_limit_from(host, 0);
        let after = self.init_send_limit(host);
        if after.result.is_ok() {
            assert forall|shard: ShardId|
                after.strategy.outgoing_gas_limit.contains_key(shard)
                    <==> self.peers().to_set().contains(shard) by {
                if self.peers().contains(shard) {
                    let k = choose|k: int| 0 <= k < self.peers().len() && self.peers()[k]
                        == shard;
                    assert(after.strategy.outgoing_gas_limit.contains_key(cleared.peers()[k]));
                } else {
                    assert(forall|k: int|
                        0 <= k < cleared.peers().len() ==> cleared.peers()[k] != shard);
                    assert(!cleared.outgoing_gas_limit.contains_key(shard));
                }
            }
            assert forall|peer: ShardId| self.peers().contains(peer) implies Ok::<
                GGas,
                StrategyError,
            >(#[trigger] after.strategy.outgoing_gas_limit[peer]) == send_limit(
                host.info(peer),
            ) by {
                let k = choose|k: int| 0 <= k < self.peers().len() && self.peers()[k]
                    == peer;
                assert(after.strategy.outgoing_gas_limit.contains_key(cleared.peers()[k]));
            }
        }
    }

    /// The first peer from `from` on whose level cannot be turned into a
    /// limit is what computing the limits fails on.
    pub proof fn lemma_init_send_limit_from_failure(self, host: HostState, from: int)
        requires
            0 <= from,
        ensures
            (match self.init_send_limit_from(host, from).result {
                Ok(()) => true,
                Err(StrategyError::InvalidCongestion(level)) => !level.in_unit_interval() && exists|
                    k: int,
                |
                    0 <= k < self.peers().len() && (#[trigger] host.info(
                        self.peers()[k],
                    )).incoming_congestion == level,
                Err(_) => false,
            }),
        decreases self.peers().len() - from,
    {
        if from < self.peers().len() {
            let peer = self.peers()[from];
            match send_limit(host.info(peer)) {
                Err(error) => {
                    assert(host.info(self.peers()[from]).incoming_congestion
                        == host.info(peer).incoming_congestion);
                },
                Ok(limit) => {
                    let next = self.with_limit(peer, limit);
                    next.lemma_init_send_limit_from_failure(host, from + 1);
                    match next.init_send_limit_from(host, from + 1).result {
                        Err(StrategyError::InvalidCongestion(level)) => {
                            let k = choose|k: int|
                                0 <= k < next.peers().len() && (#[trigger] host.info(
                                    next.peers()[k],
                                )).incoming_congestion == level;
                            assert(host.info(self.peers()[k]).incoming_congestion == level);
                        },
                        _ => {},
                    }
                },
            }
        }
    }
}

/// A send limit is at most the largest send limit.
pub proof fn lemma_blend_within(level: Ratio)
    requires
        level.in_unit_interval(),
    ensures
        0 <= blend(MAX_SEND_LIMIT, MIN_SEND_LIMIT, level)
            <= MAX_SEND_LIMIT,
{
    lemma_blend_bounds(
        MAX_SEND_LIMIT,
        MIN_SEND_LIMIT,
        level,
    );
}

} // verus!

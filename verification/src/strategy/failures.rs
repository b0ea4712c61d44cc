//! Why a chunk fails, if it does.

use vstd::prelude::*;
use crate::error::StrategyError;
use crate::model::HostState;
use crate::receipt::Receipt;
use crate::strategy::semantics::filter_stop;
use crate::strategy::semantics::send_limit;
use crate::strategy::semantics::tx_limit;
use crate::strategy::semantics::StrategyState;
use crate::units::GGas;
use crate::units::GAS_LIMIT;

verus! {

impl StrategyState {
    /// Why sending on or keeping back can fail once every peer has a
    /// limit: only because a receipt is addressed to a shard that is not
    /// among the shards given.
    pub open spec fn dispatch_failure(self, result: Result<(), StrategyError>) -> bool {
        match result {
            Ok(()) => true,
            Err(StrategyError::UnknownShard(shard)) => !self.all_shards.contains(shard),
            Err(_) => false,
        }
    }

    /// The strategy is initialised and well-formed, and exactly the peers
    /// have limits.
    pub open spec fn limited(self) -> bool {
        &&& self.wf()
        &&& self.shard_id.is_some()
        &&& self.outgoing_gas_limit.dom() =~= self.peers().to_set()
    }

    /// A strategy that differs from a limited one in the amounts of its
    /// limits only is limited.
    proof fn lemma_limited_kept(self, after: StrategyState)
        requires
            self.limited(),
            after == (StrategyState { outgoing_gas_limit: after.outgoing_gas_limit, ..self }),
            after.outgoing_gas_limit.dom() =~= self.outgoing_gas_limit.dom(),
        ensures
            after.limited(),
    {
    }

    /// Once every peer has a limit, sending a receipt on or keeping it
    /// back fails only on a receipt to an unknown shard.
    pub proof fn lemma_forward_or_buffer_failure(self, host: HostState, receipt: Receipt)
        requires
            self.limited(),
        ensures
            self.dispatch_failure(self.forward_or_buffer(host, receipt).result),
            self.forward_or_buffer(host, receipt).result.is_ok() <==> receipt.receiver
                == self.shard_id.unwrap() || self.all_shards.contains(receipt.receiver),
    {
        if receipt.receiver != self.shard_id.unwrap() {
            self.lemma_peer_has_queue(receipt.receiver);
            self.lemma_peers();
            assert(self.peers().to_set().contains(receipt.receiver)
                <==> self.peers().contains(receipt.receiver));
        }
    }

    /// Once every peer has a limit, sending receipts on or keeping them
    /// back fails only on a receipt to an unknown shard.
    pub proof fn lemma_forward_or_buffer_all_failure(self, host: HostState, receipts: Seq<Receipt>)
        requires
            self.limited(),
        ensures
            self.dispatch_failure(self.forward_or_buffer_all(host, receipts).result),
            self.forward_or_buffer_all(host, receipts).result.is_ok() <==> forall|k: int|
                0 <= k < receipts.len() ==> (#[trigger] receipts[k]).receiver
                    == self.shard_id.unwrap() || self.all_shards.contains(receipts[k].receiver),
        decreases receipts.len(),
    {
        if receipts.len() > 0 {
            self.lemma_forward_or_buffer_failure(host, receipts[0]);
            let first = self.forward_or_buffer(host, receipts[0]);
            if first.result.is_ok() {
                self.lemma_forward_or_buffer_frame(host, receipts[0]);
                self.lemma_limited_kept(first.strategy);
                first.strategy.lemma_forward_or_buffer_all_failure(
                    first.host,
                    receipts.drop_first(),
                );
                let rest = receipts.drop_first();
                if self.forward_or_buffer_all(host, receipts).result.is_ok() {
                    assert forall|k: int| 0 <= k < receipts.len() implies (
                    #[trigger] receipts[k]).receiver == self.shard_id.unwrap()
                        || self.all_shards.contains(receipts[k].receiver) by {
                        if k > 0 {
                            assert(rest[k - 1] == receipts[k]);
                        }
                    }
                } else {
                    let k = choose|k: int|
                        0 <= k < rest.len() && !((#[trigger] rest[k]).receiver
                            == self.shard_id.unwrap() || self.all_shards.contains(
                            rest[k].receiver,
                        ));
                    assert(receipts[k + 1] == rest[k]);
                }
            } else {
                assert(receipts[0].receiver != self.shard_id.unwrap());
            }
        }
    }

    /// Once every peer has a limit, draining the buffers does not fail.
    pub proof fn lemma_process_outgoing_receipts_from_succeeds(self, host: HostState, from: int)
        requires
            self.limited(),
        ensures
            self.process_outgoing_receipts_from(host, from).result.is_ok(),
        decreases self.peers().len() - from,
    {
        if 0 <= from < self.peers().len() {
            let drained = self.peers()[from];
            assert(self.peers().to_set().contains(drained));
            self.lemma_drain_queue_frame(host, drained);
            let step = self.drain_queue(host, drained);
            self.lemma_limited_kept(step.strategy);
            step.strategy.lemma_process_outgoing_receipts_from_succeeds(step.host, from + 1);
        }
    }

    /// Once every peer has a limit, admitting transactions fails only on
    /// a receipt to an unknown shard.
    pub proof fn lemma_admit_under_failure(self, host: HostState, limit: GGas)
        requires
            self.limited(),
        ensures
            self.dispatch_failure(self.admit_under(host, limit).result),
        decreases host.incoming_transactions.len(),
    {
        if !(host.gas_burnt >= limit || host.incoming_transactions.len() == 0) {
            let tx = host.incoming_transactions[0];
            let popped = host.pop_transaction();
            if !(self.global_stop(popped) || filter_stop(popped, tx)) {
                let accepted = popped.accept(tx);
                let dispatched = self.forward_or_buffer_all(accepted, popped.accepted(tx));
                self.lemma_forward_or_buffer_all_failure(accepted, popped.accepted(tx));
                self.lemma_forward_or_buffer_all_frame(accepted, popped.accepted(tx));
                if dispatched.result.is_ok() {
                    self.lemma_limited_kept(dispatched.strategy);
                    dispatched.strategy.lemma_admit_under_failure(dispatched.host, limit);
                }
            }
        }
    }

    /// Once every peer has a limit, executing incoming receipts fails only
    /// on a receipt to an unknown shard.
    pub proof fn lemma_process_incoming_receipts_failure(self, host: HostState)
        requires
            self.limited(),
        ensures
            self.dispatch_failure(self.process_incoming_receipts(host).result),
        decreases host.incoming_receipts.len(),
    {
        if !(host.gas_burnt >= GAS_LIMIT || host.incoming_receipts.len() == 0) {
            let receipt = host.incoming_receipts[0];
            let popped = host.pop_incoming_receipt();
            let executed = popped.execute(receipt);
            let dispatched = self.forward_or_buffer_all(executed, popped.executed(receipt));
            self.lemma_forward_or_buffer_all_failure(executed, popped.executed(receipt));
            self.lemma_forward_or_buffer_all_frame(executed, popped.executed(receipt));
            if dispatched.result.is_ok() {
                self.lemma_limited_kept(dispatched.strategy);
                dispatched.strategy.lemma_process_incoming_receipts_failure(dispatched.host);
            }
        }
    }

    /// Why a chunk fails, if it does: the strategy was not initialised; or
    /// some peer published an incoming congestion outside `[0, 1]`; or a
    /// receipt that the chunk produced is addressed to a shard that is not
    /// among the shards given. A send limit is never missing.
    pub open spec fn chunk_failure(
        self,
        host: HostState,
        result: Result<(), StrategyError>,
    ) -> bool {
        match result {
            Ok(()) => true,
            Err(StrategyError::UninitializedStrategy) => self.shard_id.is_none(),
            Err(StrategyError::InvalidCongestion(level)) => !level.in_unit_interval() && exists|
                k: int,
            |
                0 <= k < self.peers().len() && (#[trigger] host.info(
                    self.peers()[k],
                )).incoming_congestion == level,
            Err(StrategyError::UnknownShard(shard)) => !self.all_shards.contains(shard),
            Err(StrategyError::MissingSendLimit(_)) => false,
        }
    }

    /// A chunk of a well-formed strategy fails only for the reasons that
    /// [`Self::chunk_failure`] names, and it always fails where the
    /// strategy was not initialised or a peer published an incoming
    /// congestion outside `[0, 1]`.
    pub proof fn lemma_compute_chunk_failure(self, host: HostState)
        requires
            self.wf(),
        ensures
            self.chunk_failure(host, self.compute_chunk(host).result),
            self.shard_id.is_none() ==> self.compute_chunk(host).result == Err::<
                (),
                StrategyError,
            >(StrategyError::UninitializedStrategy),
            forall|k: int|
                0 <= k < self.peers().len() && !(#[trigger] host.info(
                    self.peers()[k],
                )).incoming_congestion.in_unit_interval() ==> self.compute_chunk(
                    host,
                ).result.is_err(),
    {
        if self.shard_id.is_some() {
            let cleared = self.without_limits();
            cleared.lemma_init_send_limit_from_failure(host, 0);
            self.lemma_init_send_limit(host);
            let limited = self.init_send_limit(host);
            if limited.result.is_ok() {
                let start = limited.strategy;
                self.lemma_limits_only(start, host);
                let drained = start.process_outgoing_receipts(host);
                start.lemma_process_outgoing_receipts_from_succeeds(host, 0);
                start.lemma_process_outgoing_receipts_from_kept(host, 0, 0);
                start.lemma_limited_kept(drained.strategy);
                let admitted = drained.strategy.process_new_transactions(drained.host);
                let limit = tx_limit(drained.host);
                drained.strategy.lemma_admit_under_failure(drained.host, limit);
                drained.strategy.lemma_admit_under_kept(drained.host, limit, 0);
                if admitted.result.is_ok() {
                    drained.strategy.lemma_limited_kept(admitted.strategy);
                    let executed = admitted.strategy.process_incoming_receipts(admitted.host);
                    admitted.strategy.lemma_process_incoming_receipts_failure(admitted.host);
                    admitted.strategy.lemma_process_incoming_receipts_kept(admitted.host, 0);
                    if executed.result.is_ok() {
                        admitted.strategy.lemma_limited_kept(executed.strategy);
                    }
                }
            } else {
                match limited.result {
                    Err(StrategyError::InvalidCongestion(level)) => {
                        let k = choose|k: int|
                            0 <= k < cleared.peers().len() && (#[trigger] host.info(
                                cleared.peers()[k],
                            )).incoming_congestion == level;
                        assert(host.info(self.peers()[k]).incoming_congestion == level);
                    },
                    _ => {},
                }
            }
            assert forall|k: int|
                0 <= k < self.peers().len() && !(#[trigger] host.info(
                    self.peers()[k],
                )).incoming_congestion.in_unit_interval() implies self.compute_chunk(
                host,
            ).result.is_err() by {
                if limited.result.is_ok() {
                    assert(send_limit(host.info(self.peers()[k])).is_ok());
                }
            }
        }
    }
}

} // verus!

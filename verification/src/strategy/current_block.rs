//! What is published in the current block: no step before the last
//! touches it, and no step reads it.

use vstd::prelude::*;
use crate::model::HostState;
use crate::receipt::CongestedShardsInfo;
use crate::receipt::Receipt;
use crate::strategy::semantics::filter_stop;
use crate::strategy::semantics::send_limit;
use crate::strategy::semantics::tenths;
use crate::strategy::semantics::StrategyState;
use crate::strategy::semantics::GLOBAL_OUTGOING_CONGESTION_LIMIT_TENTHS;
use crate::units::GGas;
use crate::units::ShardId;
use crate::units::GAS_LIMIT;

verus! {

impl StrategyState {
    /// Draining buffers leaves alone what is published in the current block.
    pub proof fn lemma_process_outgoing_receipts_from_frame(self, host: HostState, from: int)
        ensures
            self.process_outgoing_receipts_from(host, from).host.current_block_info
                == host.current_block_info,
        decreases self.peers().len() - from,
    {
        if 0 <= from < self.peers().len() {
            let drained = self.peers()[from];
            if self.outgoing_gas_limit.contains_key(drained) {
                self.lemma_drain_queue_frame(host, drained);
                let step = self.drain_queue(host, drained);
                step.strategy.lemma_process_outgoing_receipts_from_frame(step.host, from + 1);
            }
        }
    }

    /// Admitting transactions leaves alone what is published in the
    /// current block.
    pub proof fn lemma_admit_under_frame(self, host: HostState, limit: GGas)
        ensures
            self.admit_under(host, limit).host.current_block_info == host.current_block_info,
        decreases host.incoming_transactions.len(),
    {
        if !(host.gas_burnt >= limit || host.incoming_transactions.len() == 0) {
            let tx = host.incoming_transactions[0];
            let popped = host.pop_transaction();
            if !(self.global_stop(popped) || filter_stop(popped, tx)) {
                let accepted = popped.accept(tx);
                let dispatched = self.forward_or_buffer_all(accepted, popped.accepted(tx));
                self.lemma_forward_or_buffer_all_frame(accepted, popped.accepted(tx));
                if dispatched.result.is_ok() {
                    dispatched.strategy.lemma_admit_under_frame(dispatched.host, limit);
                }
            }
        }
    }

    /// Executing incoming receipts leaves alone what is published in the
    /// current block.
    pub proof fn lemma_process_incoming_receipts_frame(self, host: HostState)
        ensures
            self.process_incoming_receipts(host).host.current_block_info
                == host.current_block_info,
        decreases host.incoming_receipts.len(),
    {
        if !(host.gas_burnt >= GAS_LIMIT || host.incoming_receipts.len() == 0) {
            let receipt = host.incoming_receipts[0];
            let popped = host.pop_incoming_receipt();
            let executed = popped.execute(receipt);
            let dispatched = self.forward_or_buffer_all(executed, popped.executed(receipt));
            self.lemma_forward_or_buffer_all_frame(executed, popped.executed(receipt));
            if dispatched.result.is_ok() {
                dispatched.strategy.lemma_process_incoming_receipts_frame(dispatched.host);
            }
        }
    }

    /// What is buffered depends on the host's queues alone.
    pub proof fn lemma_buffered_by_queues(self, host: HostState, other: HostState, upto: int)
        requires
            other.queues == host.queues,
        ensures
            self.buffered_size(other, upto) == self.buffered_size(host, upto),
            self.buffered_gas(other, upto) == self.buffered_gas(host, upto),
        decreases upto,
    {
        if upto > 0 {
            self.lemma_buffered_by_queues(host, other, upto - 1);
            assert(self.buffered(other, self.peers()[upto - 1]) == self.buffered(
                host,
                self.peers()[upto - 1],
            ));
        }
    }

    /// Sending a receipt on or keeping it back does the same whatever is
    /// published in the current block, and leaves that alone.
    pub proof fn lemma_forward_or_buffer_republished(
        self,
        host: HostState,
        receipt: Receipt,
        published: Map<ShardId, CongestedShardsInfo>,
    )
        ensures
            self.forward_or_buffer(host.republished(published), receipt)
                == self.forward_or_buffer(host, receipt).republished(published),
    {
    }

    /// Sending receipts on or keeping them back does the same whatever is
    /// published in the current block, and leaves that alone.
    pub proof fn lemma_forward_or_buffer_all_republished(
        self,
        host: HostState,
        receipts: Seq<Receipt>,
        published: Map<ShardId, CongestedShardsInfo>,
    )
        ensures
            self.forward_or_buffer_all(host.republished(published), receipts)
                == self.forward_or_buffer_all(host, receipts).republished(published),
        decreases receipts.len(),
    {
        if receipts.len() > 0 {
            self.lemma_forward_or_buffer_republished(host, receipts[0], published);
            let first = self.forward_or_buffer(host, receipts[0]);
            if first.result.is_ok() {
                first.strategy.lemma_forward_or_buffer_all_republished(
                    first.host,
                    receipts.drop_first(),
                    published,
                );
            }
        }
    }

    /// Computing the send limits does the same whatever is published in
    /// the current block, and leaves that alone.
    pub proof fn lemma_init_send_limit_from_republished(
        self,
        host: HostState,
        from: int,
        published: Map<ShardId, CongestedShardsInfo>,
    )
        ensures
            self.init_send_limit_from(host.republished(published), from)
                == self.init_send_limit_from(host, from).republished(published),
        decreases self.peers().len() - from,
    {
        if 0 <= from < self.peers().len() {
            let peer = self.peers()[from];
            assert(host.republished(published).info(peer) == host.info(peer));
            match send_limit(host.info(peer)) {
                Err(error) => {},
                Ok(limit) => {
                    self.with_limit(peer, limit).lemma_init_send_limit_from_republished(
                        host,
                        from + 1,
                        published,
                    );
                },
            }
        }
    }

    /// Draining a buffer does the same whatever is published in the
    /// current block, and leaves that alone.
    pub proof fn lemma_drain_queue_republished(
        self,
        host: HostState,
        peer: ShardId,
        published: Map<ShardId, CongestedShardsInfo>,
    )
        ensures
            self.drain_queue(host.republished(published), peer) == self.drain_queue(
                host,
                peer,
            ).republished(published),
        decreases self.buffered(host, peer).len(),
    {
        let queue = self.outgoing_queues[peer];
        let waiting = self.buffered(host, peer);
        let limit = self.outgoing_gas_limit[peer];
        assert(self.buffered(host.republished(published), peer) == waiting);
        if !(!host.has_queue(queue) || waiting.len() == 0 || waiting[0].attached_gas > limit) {
            let next = self.with_limit(peer, (limit - waiting[0].attached_gas) as GGas);
            let next_host = host.pop_front(queue).forward(waiting[0]);
            next.lemma_drain_queue_republished(next_host, peer, published);
            assert(host.republished(published).pop_front(queue).forward(waiting[0])
                == next_host.republished(published));
        }
    }

    /// Draining the buffers does the same whatever is published in the
    /// current block, and leaves that alone.
    pub proof fn lemma_process_outgoing_receipts_from_republished(
        self,
        host: HostState,
        from: int,
        published: Map<ShardId, CongestedShardsInfo>,
    )
        ensures
            self.process_outgoing_receipts_from(host.republished(published), from)
                == self.process_outgoing_receipts_from(host, from).republished(published),
        decreases self.peers().len() - from,
    {
        if 0 <= from < self.peers().len() {
            let peer = self.peers()[from];
            if self.outgoing_gas_limit.contains_key(peer) {
                self.lemma_drain_queue_republished(host, peer, published);
                self.lemma_drain_queue_frame(host, peer);
                let step = self.drain_queue(host, peer);
                step.strategy.lemma_process_outgoing_receipts_from_republished(
                    step.host,
                    from + 1,
                    published,
                );
            }
        }
    }

    /// Whether there is a global stop does not depend on what is published
    /// in the current block.
    pub proof fn lemma_global_stop_republished(
        self,
        host: HostState,
        published: Map<ShardId, CongestedShardsInfo>,
    )
        ensures
            self.global_stop(host.republished(published)) == self.global_stop(host),
    {
        let other = host.republished(published);
        assert forall|i: int| 0 <= i < self.all_shards.len() implies (#[trigger] other.info(
            self.all_shards[i],
        )) == host.info(self.all_shards[i]) by {}
        if self.global_stop(host) {
            let i = choose|i: int|
                0 <= i < self.all_shards.len() && (#[trigger] host.info(
                    self.all_shards[i],
                )).outgoing_congestion.spec_exceeds(
                    tenths(
                        GLOBAL_OUTGOING_CONGESTION_LIMIT_TENTHS,
                    ),
                );
            assert(other.info(self.all_shards[i]) == host.info(self.all_shards[i]));
        }
        if self.global_stop(other) {
            let i = choose|i: int|
                0 <= i < self.all_shards.len() && (#[trigger] other.info(
                    self.all_shards[i],
                )).outgoing_congestion.spec_exceeds(
                    tenths(
                        GLOBAL_OUTGOING_CONGESTION_LIMIT_TENTHS,
                    ),
                );
            assert(host.info(self.all_shards[i]) == other.info(self.all_shards[i]));
        }
    }

    /// Admitting transactions does the same whatever is published in the
    /// current block, and leaves that alone.
    pub proof fn lemma_admit_under_republished(
        self,
        host: HostState,
        limit: GGas,
        published: Map<ShardId, CongestedShardsInfo>,
    )
        ensures
            self.admit_under(host.republished(published), limit) == self.admit_under(
                host,
                limit,
            ).republished(published),
        decreases host.incoming_transactions.len(),
    {
        if !(host.gas_burnt >= limit || host.incoming_transactions.len() == 0) {
            let tx = host.incoming_transactions[0];
            let popped = host.pop_transaction();
            assert(host.republished(published).pop_transaction() == popped.republished(published));
            self.lemma_global_stop_republished(popped, published);
            assert(filter_stop(popped.republished(published), tx)
                == filter_stop(popped, tx));
            if !(self.global_stop(popped) || filter_stop(popped, tx)) {
                let accepted = popped.accept(tx);
                assert(popped.republished(published).accept(tx) == accepted.republished(
                    published,
                ));
                let receipts = popped.accepted(tx);
                self.lemma_forward_or_buffer_all_republished(accepted, receipts, published);
                let dispatched = self.forward_or_buffer_all(accepted, receipts);
                self.lemma_forward_or_buffer_all_frame(accepted, receipts);
                if dispatched.result.is_ok() {
                    dispatched.strategy.lemma_admit_under_republished(
                        dispatched.host,
                        limit,
                        published,
                    );
                }
            }
        }
    }

    /// Executing incoming receipts does the same whatever is published in
    /// the current block, and leaves that alone.
    pub proof fn lemma_process_incoming_receipts_republished(
        self,
        host: HostState,
        published: Map<ShardId, CongestedShardsInfo>,
    )
        ensures
            self.process_incoming_receipts(host.republished(published))
                == self.process_incoming_receipts(host).republished(published),
        decreases host.incoming_receipts.len(),
    {
        if !(host.gas_burnt >= GAS_LIMIT || host.incoming_receipts.len() == 0) {
            let receipt = host.incoming_receipts[0];
            let popped = host.pop_incoming_receipt();
            let executed = popped.execute(receipt);
            assert(host.republished(published).pop_incoming_receipt().execute(receipt)
                == executed.republished(published));
            let receipts = popped.executed(receipt);
            self.lemma_forward_or_buffer_all_republished(executed, receipts, published);
            let dispatched = self.forward_or_buffer_all(executed, receipts);
            self.lemma_forward_or_buffer_all_frame(executed, receipts);
            if dispatched.result.is_ok() {
                dispatched.strategy.lemma_process_incoming_receipts_republished(
                    dispatched.host,
                    published,
                );
            }
        }
    }
}

} // verus!

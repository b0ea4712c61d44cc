//! The receipts that a chunk produces, and that those among them that are
//! addressed to the strategy's own shard are handed over in the same chunk.

use vstd::prelude::*;
use crate::model::HostState;
use crate::receipt::Receipt;
use crate::strategy::semantics::filter_stop;
use crate::strategy::semantics::tx_limit;
use crate::strategy::semantics::StrategyState;
use crate::units::GGas;
use crate::units::ShardId;
use crate::units::GAS_LIMIT;

verus! {

/// Whether a receipt is addressed to `shard`.
pub open spec fn goes_to(shard: ShardId) -> spec_fn(Receipt) -> bool {
    |receipt: Receipt| receipt.receiver == shard
}

/// The receipts of `receipts` that are addressed to `shard`, in their order.
pub open spec fn addressed_to(receipts: Seq<Receipt>, shard: ShardId) -> Seq<Receipt> {
    receipts.filter(goes_to(shard))
}

/// The receipts that were handed over between `host` and `after`.
pub open spec fn sent_since(host: HostState, after: HostState) -> Seq<Receipt> {
    after.forwarded.skip(host.forwarded.len() as int)
}

/// What is addressed to a shard in two sequences, one after the other, is
/// what is addressed to it in the first and then in the second.
pub proof fn lemma_addressed_to_add(first: Seq<Receipt>, second: Seq<Receipt>, shard: ShardId)
    ensures
        addressed_to(first + second, shard) == addressed_to(first, shard) + addressed_to(
            second,
            shard,
        ),
{
    Seq::<Receipt>::filter_distributes_over_add(first, second, goes_to(shard));
}

/// Of no receipts, none is addressed to a shard.
pub proof fn lemma_addressed_to_empty(shard: ShardId)
    ensures
        addressed_to(Seq::<Receipt>::empty(), shard) == Seq::<Receipt>::empty(),
{
    reveal(Seq::filter);
}

/// Of one receipt, it is addressed to a shard or it is not.
pub proof fn lemma_addressed_to_one(receipt: Receipt, shard: ShardId)
    ensures
        addressed_to(seq![receipt], shard) == (if receipt.receiver == shard {
            seq![receipt]
        } else {
            Seq::<Receipt>::empty()
        }),
{
    reveal_with_fuel(Seq::filter, 2);
    assert(seq![receipt].drop_last() =~= Seq::<Receipt>::empty());
    assert(Seq::<Receipt>::empty().push(receipt) =~= seq![receipt]);
}

/// Where no receipt is addressed to a shard, nothing is addressed to it.
pub proof fn lemma_addressed_to_none(receipts: Seq<Receipt>, shard: ShardId)
    requires
        forall|k: int| 0 <= k < receipts.len() ==> (#[trigger] receipts[k]).receiver != shard,
    ensures
        addressed_to(receipts, shard) == Seq::<Receipt>::empty(),
    decreases receipts.len(),
{
    reveal(Seq::filter);
    if receipts.len() > 0 {
        let front = receipts.drop_last();
        assert forall|k: int| 0 <= k < front.len() implies (#[trigger] front[k]).receiver
            != shard by {
            assert(receipts[k].receiver != shard);
        }
        lemma_addressed_to_none(front, shard);
        assert(receipts[receipts.len() - 1].receiver != shard);
    }
}

/// What was handed over in two stretches is what was handed over in the
/// first and then in the second.
pub proof fn lemma_sent_since_both(host: HostState, between: HostState, after: HostState)
    requires
        host.forwarded.is_prefix_of(between.forwarded),
        between.forwarded.is_prefix_of(after.forwarded),
    ensures
        host.forwarded.is_prefix_of(after.forwarded),
        sent_since(host, after) == sent_since(host, between) + sent_since(between, after),
{
    assert(host.forwarded =~= after.forwarded.subrange(0, host.forwarded.len() as int));
    assert(sent_since(host, after) =~= sent_since(host, between) + sent_since(between, after));
}

impl StrategyState {
    /// The receipts that admitting transactions under `limit` produces:
    /// those of every transaction that is accepted, in the order of the
    /// accepting.
    pub open spec fn admitted_receipts(self, host: HostState, limit: GGas) -> Seq<Receipt>
        decreases host.incoming_transactions.len(),
    {
        if host.gas_burnt >= limit || host.incoming_transactions.len() == 0 {
            Seq::empty()
        } else {
            let tx = host.incoming_transactions[0];
            let popped = host.pop_transaction();
            if self.global_stop(popped) || filter_stop(popped, tx) {
                Seq::empty()
            } else {
                let receipts = popped.accepted(tx);
                let dispatched = self.forward_or_buffer_all(popped.accept(tx), receipts);
                if dispatched.result.is_err() {
                    receipts
                } else {
                    proof {
                        self.lemma_forward_or_buffer_all_frame(popped.accept(tx), receipts);
                    }
                    receipts + dispatched.strategy.admitted_receipts(dispatched.host, limit)
                }
            }
        }
    }

    /// The receipts that executing incoming receipts produces, in the
    /// order of the executing.
    pub open spec fn executed_receipts(self, host: HostState) -> Seq<Receipt>
        decreases host.incoming_receipts.len(),
    {
        if host.gas_burnt >= GAS_LIMIT || host.incoming_receipts.len() == 0 {
            Seq::empty()
        } else {
            let receipt = host.incoming_receipts[0];
            let popped = host.pop_incoming_receipt();
            let receipts = popped.executed(receipt);
            let dispatched = self.forward_or_buffer_all(popped.execute(receipt), receipts);
            if dispatched.result.is_err() {
                receipts
            } else {
                proof {
                    self.lemma_forward_or_buffer_all_frame(popped.execute(receipt), receipts);
                }
                receipts + dispatched.strategy.executed_receipts(dispatched.host)
            }
        }
    }

    /// The receipts that a chunk produces: those of the transactions it
    /// accepts, and then those of the receipts it executes.
    pub open spec fn produced_receipts(self, host: HostState) -> Seq<Receipt> {
        let limited = self.init_send_limit(host);
        if self.shard_id.is_none() || limited.result.is_err() {
            Seq::empty()
        } else {
            let drained = limited.strategy.process_outgoing_receipts(limited.host);
            if drained.result.is_err() {
                Seq::empty()
            } else {
                let admitted = drained.strategy.process_new_transactions(drained.host);
                let first = drained.strategy.admitted_receipts(
                    drained.host,
                    tx_limit(drained.host),
                );
                if admitted.result.is_err() {
                    first
                } else {
                    first + admitted.strategy.executed_receipts(admitted.host)
                }
            }
        }
    }

    /// Where sending a receipt on or keeping it back goes through, the
    /// receipt is handed over if it is addressed to the strategy's own
    /// shard, and nothing else addressed to that shard is handed over.
    pub proof fn lemma_forward_or_buffer_local(self, host: HostState, receipt: Receipt)
        requires
            self.shard_id.is_some(),
            self.forward_or_buffer(host, receipt).result.is_ok(),
        ensures
            addressed_to(
                sent_since(host, self.forward_or_buffer(host, receipt).host),
                self.shard_id.unwrap(),
            ) == addressed_to(seq![receipt], self.shard_id.unwrap()),
    {
        let own = self.shard_id.unwrap();
        let after = self.forward_or_buffer(host, receipt);
        let sent = sent_since(host, after.host);
        lemma_addressed_to_one(receipt, own);
        if after.host.forwarded == host.forwarded.push(receipt) {
            assert(sent =~= seq![receipt]);
        } else {
            assert(after.host.forwarded == host.forwarded);
            assert(sent =~= Seq::<Receipt>::empty());
            assert(receipt.receiver != own);
        }
    }

    /// Where sending receipts on or keeping them back goes through, those
    /// of them that are addressed to the strategy's own shard are handed
    /// over, in their order, and nothing else addressed to that shard is.
    pub proof fn lemma_forward_or_buffer_all_local(self, host: HostState, receipts: Seq<Receipt>)
        requires
            self.wf(),
            self.shard_id.is_some(),
            self.forward_or_buffer_all(host, receipts).result.is_ok(),
        ensures
            host.forwarded.is_prefix_of(self.forward_or_buffer_all(host, receipts).host.forwarded),
            addressed_to(
                sent_since(host, self.forward_or_buffer_all(host, receipts).host),
                self.shard_id.unwrap(),
            ) == addressed_to(receipts, self.shard_id.unwrap()),
        decreases receipts.len(),
    {
        let own = self.shard_id.unwrap();
        let after = self.forward_or_buffer_all(host, receipts);
        if receipts.len() == 0 {
            lemma_addressed_to_empty(own);
            assert(receipts =~= Seq::<Receipt>::empty());
            assert(sent_since(host, after.host) =~= Seq::<Receipt>::empty());
        } else {
            let first = self.forward_or_buffer(host, receipts[0]);
            self.lemma_forward_or_buffer_local(host, receipts[0]);
            self.lemma_forward_or_buffer_kept(host, receipts[0], 0);
            self.lemma_limits_only(first.strategy, host);
            first.strategy.lemma_forward_or_buffer_all_local(first.host, receipts.drop_first());
            lemma_sent_since_both(host, first.host, after.host);
            assert(receipts =~= seq![receipts[0]] + receipts.drop_first());
            lemma_addressed_to_add(seq![receipts[0]], receipts.drop_first(), own);
            lemma_addressed_to_add(
                sent_since(host, first.host),
                sent_since(first.host, after.host),
                own,
            );
        }
    }

    /// Where admitting transactions goes through, the receipts produced
    /// that are addressed to the strategy's own shard are handed over, in
    /// their order, and nothing else addressed to that shard is.
    pub proof fn lemma_admit_under_local(self, host: HostState, limit: GGas)
        requires
            self.wf(),
            self.shard_id.is_some(),
            self.admit_under(host, limit).result.is_ok(),
        ensures
            host.forwarded.is_prefix_of(self.admit_under(host, limit).host.forwarded),
            addressed_to(
                sent_since(host, self.admit_under(host, limit).host),
                self.shard_id.unwrap(),
            ) == addressed_to(self.admitted_receipts(host, limit), self.shard_id.unwrap()),
        decreases host.incoming_transactions.len(),
    {
        let own = self.shard_id.unwrap();
        let after = self.admit_under(host, limit);
        lemma_addressed_to_empty(own);
        if host.gas_burnt >= limit || host.incoming_transactions.len() == 0 {
            assert(sent_since(host, after.host) =~= Seq::<Receipt>::empty());
        } else {
            let tx = host.incoming_transactions[0];
            let popped = host.pop_transaction();
            if self.global_stop(popped) || filter_stop(popped, tx) {
                assert(sent_since(host, after.host) =~= Seq::<Receipt>::empty());
            } else {
                let accepted = popped.accept(tx);
                let receipts = popped.accepted(tx);
                let dispatched = self.forward_or_buffer_all(accepted, receipts);
                self.lemma_forward_or_buffer_all_local(accepted, receipts);
                self.lemma_forward_or_buffer_all_frame(accepted, receipts);
                self.lemma_limits_only(dispatched.strategy, host);
                dispatched.strategy.lemma_admit_under_local(dispatched.host, limit);
                lemma_sent_since_both(accepted, dispatched.host, after.host);
                assert(sent_since(host, after.host) == sent_since(accepted, after.host));
                lemma_addressed_to_add(
                    receipts,
                    dispatched.strategy.admitted_receipts(dispatched.host, limit),
                    own,
                );
                lemma_addressed_to_add(
                    sent_since(accepted, dispatched.host),
                    sent_since(dispatched.host, after.host),
                    own,
                );
            }
        }
    }

    /// Where executing incoming receipts goes through, the receipts
    /// produced that are addressed to the strategy's own shard are handed
    /// over, in their order, and nothing else addressed to that shard is.
    pub proof fn lemma_process_incoming_receipts_local(self, host: HostState)
        requires
            self.wf(),
            self.shard_id.is_some(),
            self.process_incoming_receipts(host).result.is_ok(),
        ensures
            host.forwarded.is_prefix_of(self.process_incoming_receipts(host).host.forwarded),
            addressed_to(
                sent_since(host, self.process_incoming_receipts(host).host),
                self.shard_id.unwrap(),
            ) == addressed_to(self.executed_receipts(host), self.shard_id.unwrap()),
        decreases host.incoming_receipts.len(),
    {
        let own = self.shard_id.unwrap();
        let after = self.process_incoming_receipts(host);
        lemma_addressed_to_empty(own);
        if host.gas_burnt >= GAS_LIMIT || host.incoming_receipts.len() == 0 {
            assert(sent_since(host, after.host) =~= Seq::<Receipt>::empty());
        } else {
            let receipt = host.incoming_receipts[0];
            let popped = host.pop_incoming_receipt();
            let executed = popped.execute(receipt);
            let receipts = popped.executed(receipt);
            let dispatched = self.forward_or_buffer_all(executed, receipts);
            self.lemma_forward_or_buffer_all_local(executed, receipts);
            self.lemma_forward_or_buffer_all_frame(executed, receipts);
            self.lemma_limits_only(dispatched.strategy, host);
            dispatched.strategy.lemma_process_incoming_receipts_local(dispatched.host);
            lemma_sent_since_both(executed, dispatched.host, after.host);
            assert(sent_since(host, after.host) == sent_since(executed, after.host));
            lemma_addressed_to_add(
                receipts,
                dispatched.strategy.executed_receipts(dispatched.host),
                own,
            );
            lemma_addressed_to_add(
                sent_since(executed, dispatched.host),
                sent_since(dispatched.host, after.host),
                own,
            );
        }
    }

    /// Draining a buffer that holds no receipt to the strategy's own shard
    /// hands over no receipt to that shard.
    pub proof fn lemma_drain_queue_local(self, host: HostState, peer: ShardId)
        requires
            self.wf(),
            self.shard_id.is_some(),
            self.no_local_buffered(host),
            self.outgoing_queues.contains_key(peer),
            self.outgoing_gas_limit.contains_key(peer),
        ensures
            host.forwarded.is_prefix_of(self.drain_queue(host, peer).host.forwarded),
            addressed_to(
                sent_since(host, self.drain_queue(host, peer).host),
                self.shard_id.unwrap(),
            ) == Seq::<Receipt>::empty(),
    {
        let own = self.shard_id.unwrap();
        let after = self.drain_queue(host, peer);
        self.lemma_drain_queue_takes_what_fits(host, peer);
        self.lemma_drain_queue_kept(host, peer, peer);
        let waiting = self.buffered(host, peer);
        let count = waiting.len() - self.drain_queue(host, peer).strategy.buffered(
            after.host,
            peer,
        ).len();
        let sent = sent_since(host, after.host);
        assert(sent =~= waiting.take(count));
        assert forall|k: int| 0 <= k < sent.len() implies (#[trigger] sent[k]).receiver != own by {
            assert(self.receipt_fits(peer, self.buffered(host, peer)[k], false));
        }
        lemma_addressed_to_none(sent, own);
    }

    /// Draining buffers that hold no receipt to the strategy's own shard
    /// hands over no receipt to that shard.
    pub proof fn lemma_process_outgoing_receipts_from_local(self, host: HostState, from: int)
        requires
            self.wf(),
            self.shard_id.is_some(),
            self.no_local_buffered(host),
        ensures
            host.forwarded.is_prefix_of(
                self.process_outgoing_receipts_from(host, from).host.forwarded,
            ),
            addressed_to(
                sent_since(host, self.process_outgoing_receipts_from(host, from).host),
                self.shard_id.unwrap(),
            ) == Seq::<Receipt>::empty(),
        decreases self.peers().len() - from,
    {
        let own = self.shard_id.unwrap();
        let after = self.process_outgoing_receipts_from(host, from);
        lemma_addressed_to_empty(own);
        if 0 <= from < self.peers().len() && self.outgoing_gas_limit.contains_key(
            self.peers()[from],
        ) {
            let peer = self.peers()[from];
            self.lemma_peers();
            assert(self.peers().to_set().contains(peer));
            let step = self.drain_queue(host, peer);
            self.lemma_drain_queue_local(host, peer);
            self.lemma_drain_queue_kept(host, peer, peer);
            self.lemma_drain_queue_frame(host, peer);
            self.lemma_limits_only(step.strategy, host);
            step.strategy.lemma_process_outgoing_receipts_from_local(step.host, from + 1);
            lemma_sent_since_both(host, step.host, after.host);
            lemma_addressed_to_add(
                sent_since(host, step.host),
                sent_since(step.host, after.host),
                own,
            );
        } else {
            assert(sent_since(host, after.host) =~= Seq::<Receipt>::empty());
        }
    }

    /// Every receipt to the strategy's own shard that a chunk produces is
    /// handed over in that chunk: where no such receipt waits in a buffer
    /// at the start and the chunk goes through, the receipts to the own
    /// shard that the chunk hands over are those that it produces, in the
    /// order of their production.
    pub proof fn lemma_produced_local_receipts_forwarded(self, host: HostState)
        requires
            self.wf(),
            self.no_local_buffered(host),
            self.compute_chunk(host).result.is_ok(),
        ensures
            self.shard_id.is_some(),
            host.forwarded.is_prefix_of(self.compute_chunk(host).host.forwarded),
            addressed_to(
                sent_since(host, self.compute_chunk(host).host),
                self.shard_id.unwrap(),
            ) == addressed_to(self.produced_receipts(host), self.shard_id.unwrap()),
    {
        let own = self.shard_id.unwrap();
        let after = self.compute_chunk(host);
        let limited = self.init_send_limit(host);
        self.lemma_init_send_limit(host);
        self.lemma_limits_only(limited.strategy, host);
        let start = limited.strategy;
        self.lemma_buffers_hold_unchanged(host, start, host, false);
        let drained = start.process_outgoing_receipts(host);
        start.lemma_process_outgoing_receipts_from_local(host, 0);
        start.lemma_process_outgoing_receipts_from_kept(host, 0, 0);
        start.lemma_limits_only(drained.strategy, host);
        let limit = tx_limit(drained.host);
        let admitted = drained.strategy.process_new_transactions(drained.host);
        drained.strategy.lemma_admit_under_local(drained.host, limit);
        drained.strategy.lemma_admit_under_kept(drained.host, limit, 0);
        drained.strategy.lemma_limits_only(admitted.strategy, host);
        let executed = admitted.strategy.process_incoming_receipts(admitted.host);
        admitted.strategy.lemma_process_incoming_receipts_local(admitted.host);
        assert(after.host.forwarded == executed.host.forwarded);
        lemma_sent_since_both(host, drained.host, admitted.host);
        lemma_sent_since_both(host, admitted.host, executed.host);
        assert(sent_since(host, after.host) == sent_since(host, executed.host));
        lemma_addressed_to_add(
            sent_since(host, drained.host),
            sent_since(drained.host, admitted.host),
            own,
        );
        lemma_addressed_to_add(
            sent_since(host, admitted.host),
            sent_since(admitted.host, executed.host),
            own,
        );
        lemma_addressed_to_add(
            drained.strategy.admitted_receipts(drained.host, limit),
            admitted.strategy.executed_receipts(admitted.host),
            own,
        );
        assert(Seq::<Receipt>::empty() + addressed_to(
            sent_since(drained.host, admitted.host),
            own,
        ) =~= addressed_to(sent_since(drained.host, admitted.host), own));
    }
}

} // verus!

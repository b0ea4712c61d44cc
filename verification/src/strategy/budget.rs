//! What every step of a chunk keeps: the buffers as they should be, and
//! for each peer the sum of what was sent and what may still be sent.

use vstd::prelude::*;
use crate::error::StrategyError;
use crate::model::HostState;
use crate::receipt::gas_sent_to;
use crate::receipt::Receipt;
use crate::strategy::semantics::filter_stop;
use crate::strategy::semantics::tx_limit;
use crate::strategy::semantics::Outcome;
use crate::strategy::semantics::StrategyState;
use crate::units::GGas;
use crate::units::ShardId;
use crate::units::GAS_LIMIT;

verus! {

/// A receipt more adds its gas to what was sent to its receiver, and
/// nothing to what was sent to others.
pub proof fn lemma_gas_sent_to_push(receipts: Seq<Receipt>, receipt: Receipt, shard: ShardId)
    ensures
        gas_sent_to(receipts.push(receipt), shard) == gas_sent_to(receipts, shard) + (if
            receipt.receiver == shard {
            receipt.attached_gas as nat
        } else {
            0
        }),
{
    assert(receipts.push(receipt).drop_last() =~= receipts);
}

/// What was sent to `shard` is what was sent to it in a first part and
/// what was sent to it after that.
pub proof fn lemma_gas_sent_to_split(receipts: Seq<Receipt>, first: int, shard: ShardId)
    requires
        0 <= first <= receipts.len(),
    ensures
        gas_sent_to(receipts, shard) == gas_sent_to(receipts.take(first), shard) + gas_sent_to(
            receipts.skip(first),
            shard,
        ),
    decreases receipts.len(),
{
    if first == receipts.len() {
        assert(receipts.take(first) =~= receipts);
        assert(receipts.skip(first) =~= Seq::<Receipt>::empty());
    } else {
        lemma_gas_sent_to_split(receipts.drop_last(), first, shard);
        assert(receipts.drop_last().take(first) =~= receipts.take(first));
        assert(receipts.drop_last().skip(first) =~= receipts.skip(first).drop_last());
        assert(receipts.skip(first).last() == receipts.last());
    }
}

impl StrategyState {
    /// Whether `receipt` may wait in the buffer for `peer`: in the strict
    /// sense, if it is addressed to `peer`; in the loose sense, if it is not
    /// addressed to the strategy's own shard.
    pub open spec fn receipt_fits(self, peer: ShardId, receipt: Receipt, strict: bool) -> bool {
        if strict {
            receipt.receiver == peer
        } else {
            Some(receipt.receiver) != self.shard_id
        }
    }

    /// Every receipt that waits in the buffer for a peer may wait there, in
    /// the strict or in the loose sense.
    pub open spec fn buffers_hold(self, host: HostState, strict: bool) -> bool {
        forall|peer: ShardId, k: int|
            self.outgoing_queues.contains_key(peer) && 0 <= k < self.buffered(host, peer).len()
                ==> self.receipt_fits(peer, #[trigger] self.buffered(host, peer)[k], strict)
    }

    /// Every receipt that waits in the buffer for a peer is addressed to
    /// that peer.
    pub open spec fn buffers_addressed(self, host: HostState) -> bool {
        self.buffers_hold(host, true)
    }

    /// No receipt to the strategy's own shard waits in a buffer for a peer.
    pub open spec fn no_local_buffered(self, host: HostState) -> bool {
        self.buffers_hold(host, false)
    }

    /// What was sent to `peer` and what may still be sent to it, together.
    pub open spec fn budget(self, host: HostState, peer: ShardId) -> int {
        gas_sent_to(host.forwarded, peer) + self.outgoing_gas_limit[peer]
    }

    /// What every step of a chunk keeps, seen from `peer`: the strategy
    /// changes in the amounts of its limits only, the host keeps its queues
    /// in number, receipts handed over stay handed over in their order,
    /// buffers without receipts to the strategy's own shard stay so,
    /// buffers that held rightly addressed receipts still do, and then what
    /// was sent to `peer` and what may still be sent to it stay the same in
    /// sum.
    pub open spec fn kept_by(self, host: HostState, after: Outcome, peer: ShardId) -> bool {
        &&& after.strategy == StrategyState {
            outgoing_gas_limit: after.strategy.outgoing_gas_limit,
            ..self
        }
        &&& after.strategy.outgoing_gas_limit.dom() =~= self.outgoing_gas_limit.dom()
        &&& after.host.queues.len() == host.queues.len()
        &&& host.forwarded.is_prefix_of(after.host.forwarded)
        &&& (self.no_local_buffered(host) ==> after.strategy.no_local_buffered(after.host))
        &&& (self.buffers_addressed(host) ==> after.strategy.buffers_addressed(after.host))
        &&& (self.buffers_addressed(host) && self.outgoing_gas_limit.contains_key(peer)
            && self.shard_id != Some(peer) ==> after.strategy.budget(after.host, peer)
            == self.budget(host, peer))
    }

    /// Buffers stay as they are where neither the strategy's queues nor
    /// the host's change.
    pub proof fn lemma_buffers_hold_unchanged(
        self,
        host: HostState,
        after: StrategyState,
        after_host: HostState,
        strict: bool,
    )
        requires
            self.buffers_hold(host, strict),
            after.outgoing_queues == self.outgoing_queues,
            after.shard_id == self.shard_id,
            after_host.queues == host.queues,
        ensures
            after.buffers_hold(after_host, strict),
    {
        assert forall|p: ShardId, k: int|
            after.outgoing_queues.contains_key(p) && 0 <= k < after.buffered(after_host, p).len()
            implies after.receipt_fits(p, #[trigger] after.buffered(after_host, p)[k], strict) by {
            assert(after.buffered(after_host, p) == self.buffered(host, p));
            assert(self.receipt_fits(p, self.buffered(host, p)[k], strict));
        }
    }

    /// Buffers still hold what may wait in them after a receipt to a peer
    /// was put into that peer's buffer.
    pub proof fn lemma_buffers_hold_push(self, host: HostState, receipt: Receipt, strict: bool)
        requires
            self.wf(),
            self.buffers_hold(host, strict),
            self.outgoing_queues.contains_key(receipt.receiver),
            Some(receipt.receiver) != self.shard_id,
        ensures
            self.buffers_hold(
                host.push_back(self.outgoing_queues[receipt.receiver], receipt),
                strict,
            ),
    {
        let queue = self.outgoing_queues[receipt.receiver];
        let after = host.push_back(queue, receipt);
        assert forall|p: ShardId, k: int|
            self.outgoing_queues.contains_key(p) && 0 <= k < self.buffered(after, p).len()
            implies self.receipt_fits(p, #[trigger] self.buffered(after, p)[k], strict) by {
            if p == receipt.receiver {
                if host.has_queue(queue) {
                    assert(self.buffered(after, p) == self.buffered(host, p).push(receipt));
                    if k < self.buffered(host, p).len() {
                        assert(self.receipt_fits(p, self.buffered(host, p)[k], strict));
                    }
                }
            } else {
                assert(self.outgoing_queues[p] != queue);
                assert(self.buffered(after, p) == self.buffered(host, p));
                assert(self.receipt_fits(p, self.buffered(host, p)[k], strict));
            }
        }
    }

    /// Buffers still hold what may wait in them after the front of a
    /// peer's buffer was taken out.
    pub proof fn lemma_buffers_hold_pop(self, host: HostState, peer: ShardId, strict: bool)
        requires
            self.wf(),
            self.buffers_hold(host, strict),
            self.outgoing_queues.contains_key(peer),
            self.buffered(host, peer).len() > 0,
        ensures
            self.buffers_hold(host.pop_front(self.outgoing_queues[peer]), strict),
    {
        let queue = self.outgoing_queues[peer];
        let after = host.pop_front(queue);
        assert forall|p: ShardId, k: int|
            self.outgoing_queues.contains_key(p) && 0 <= k < self.buffered(after, p).len()
            implies self.receipt_fits(p, #[trigger] self.buffered(after, p)[k], strict) by {
            if p == peer {
                assert(self.buffered(after, p) == self.buffered(host, p).drop_first());
                assert(self.receipt_fits(p, self.buffered(host, p)[k + 1], strict));
            } else {
                assert(self.outgoing_queues[p] != queue);
                assert(self.buffered(after, p) == self.buffered(host, p));
                assert(self.receipt_fits(p, self.buffered(host, p)[k], strict));
            }
        }
    }

    /// A change of the host that touches neither its queues nor what was
    /// handed over keeps everything.
    pub proof fn lemma_kept_by_host_only(
        self,
        host: HostState,
        after: HostState,
        result: Result<(), StrategyError>,
        peer: ShardId,
    )
        requires
            after.queues == host.queues,
            after.forwarded == host.forwarded,
        ensures
            self.kept_by(host, Outcome { strategy: self, host: after, result }, peer),
    {
        if self.buffers_hold(host, true) {
            self.lemma_buffers_hold_unchanged(host, self, after, true);
        }
        if self.buffers_hold(host, false) {
            self.lemma_buffers_hold_unchanged(host, self, after, false);
        }
    }

    /// Two steps that each keep everything keep everything together.
    pub proof fn lemma_kept_by_both(
        self,
        host: HostState,
        between: Outcome,
        after: Outcome,
        peer: ShardId,
    )
        requires
            self.kept_by(host, between, peer),
            between.strategy.kept_by(between.host, after, peer),
        ensures
            self.kept_by(host, after, peer),
    {
    }

    /// Sending one receipt on or keeping it back keeps everything.
    pub proof fn lemma_forward_or_buffer_kept(
        self,
        host: HostState,
        receipt: Receipt,
        peer: ShardId,
    )
        requires
            self.wf(),
        ensures
            self.kept_by(host, self.forward_or_buffer(host, receipt), peer),
    {
        let after = self.forward_or_buffer(host, receipt);
        lemma_gas_sent_to_push(host.forwarded, receipt, peer);
        assert(after.strategy.outgoing_gas_limit.dom() =~= self.outgoing_gas_limit.dom());
        if self.shard_id.is_some() && receipt.receiver != self.shard_id.unwrap()
            && self.all_shards.contains(receipt.receiver) && self.outgoing_gas_limit.contains_key(
            receipt.receiver,
        ) && receipt.attached_gas > self.outgoing_gas_limit[receipt.receiver] {
            self.lemma_peer_has_queue(receipt.receiver);
            if self.buffers_hold(host, true) {
                self.lemma_buffers_hold_push(host, receipt, true);
            }
            if self.buffers_hold(host, false) {
                self.lemma_buffers_hold_push(host, receipt, false);
            }
        } else {
            if self.buffers_hold(host, true) {
                self.lemma_buffers_hold_unchanged(host, after.strategy, after.host, true);
            }
            if self.buffers_hold(host, false) {
                self.lemma_buffers_hold_unchanged(host, after.strategy, after.host, false);
            }
        }
    }

    /// Sending receipts on or keeping them back keeps everything.
    pub proof fn lemma_forward_or_buffer_all_kept(
        self,
        host: HostState,
        receipts: Seq<Receipt>,
        peer: ShardId,
    )
        requires
            self.wf(),
        ensures
            self.kept_by(host, self.forward_or_buffer_all(host, receipts), peer),
        decreases receipts.len(),
    {
        if receipts.len() > 0 {
            self.lemma_forward_or_buffer_kept(host, receipts[0], peer);
            let first = self.forward_or_buffer(host, receipts[0]);
            if first.result.is_ok() {
                self.lemma_limits_only(first.strategy, host);
                first.strategy.lemma_forward_or_buffer_all_kept(
                    first.host,
                    receipts.drop_first(),
                    peer,
                );
                self.lemma_kept_by_both(
                    host,
                    first,
                    self.forward_or_buffer_all(host, receipts),
                    peer,
                );
            }
        } else {
            self.lemma_kept_by_host_only(host, host, Ok(()), peer);
        }
    }

    /// What the steps that only send on and keep back keep, seen from
    /// `peer`, whatever the buffers hold: all that [`Self::kept_by`] names;
    /// what was sent to the peer and what may still be sent to it stay the
    /// same in sum; and what waited in a queue still waits there, in front
    /// of what was added.
    pub open spec fn dispatched_by(self, host: HostState, after: Outcome, peer: ShardId) -> bool {
        &&& self.kept_by(host, after, peer)
        &&& (self.outgoing_gas_limit.contains_key(peer) && self.shard_id != Some(peer)
            ==> after.strategy.budget(after.host, peer) == self.budget(host, peer))
        &&& forall|queue: int|
            0 <= queue < host.queues.len() ==> host.queues[queue].receipts.is_prefix_of(
                #[trigger] after.host.queues[queue].receipts,
            )
    }

    /// A change of the host that touches neither its queues nor what was
    /// handed over is within what sending on and keeping back keep.
    pub proof fn lemma_dispatched_by_host_only(
        self,
        host: HostState,
        after: HostState,
        result: Result<(), StrategyError>,
        peer: ShardId,
    )
        requires
            after.queues == host.queues,
            after.forwarded == host.forwarded,
        ensures
            self.dispatched_by(host, Outcome { strategy: self, host: after, result }, peer),
    {
        self.lemma_kept_by_host_only(host, after, result, peer);
    }

    /// Two steps that each only send on and keep back do so together.
    pub proof fn lemma_dispatched_by_both(
        self,
        host: HostState,
        between: Outcome,
        after: Outcome,
        peer: ShardId,
    )
        requires
            self.dispatched_by(host, between, peer),
            between.strategy.dispatched_by(between.host, after, peer),
        ensures
            self.dispatched_by(host, after, peer),
    {
        assert forall|queue: int| 0 <= queue < host.queues.len() implies host.queues[
            queue
        ].receipts.is_prefix_of(#[trigger] after.host.queues[queue].receipts) by {
            let first = host.queues[queue].receipts;
            let second = between.host.queues[queue].receipts;
            let third = after.host.queues[queue].receipts;
            assert(first.is_prefix_of(second));
            assert(second.is_prefix_of(third));
            assert(first =~= third.subrange(0, first.len() as int));
        }
    }

    /// Sending one receipt on or keeping it back keeps the sum for every
    /// peer and takes nothing out of a queue.
    pub proof fn lemma_forward_or_buffer_dispatched(
        self,
        host: HostState,
        receipt: Receipt,
        peer: ShardId,
    )
        requires
            self.wf(),
        ensures
            self.dispatched_by(host, self.forward_or_buffer(host, receipt), peer),
    {
        let after = self.forward_or_buffer(host, receipt);
        self.lemma_forward_or_buffer_kept(host, receipt, peer);
        lemma_gas_sent_to_push(host.forwarded, receipt, peer);
        assert forall|queue: int| 0 <= queue < host.queues.len() implies host.queues[
            queue
        ].receipts.is_prefix_of(#[trigger] after.host.queues[queue].receipts) by {
            let before = host.queues[queue].receipts;
            let then = after.host.queues[queue].receipts;
            assert(then == before || then == before.push(receipt));
            assert(before =~= then.subrange(0, before.len() as int));
        }
    }

    /// Sending receipts on or keeping them back keeps the sum for every
    /// peer and takes nothing out of a queue.
    pub proof fn lemma_forward_or_buffer_all_dispatched(
        self,
        host: HostState,
        receipts: Seq<Receipt>,
        peer: ShardId,
    )
        requires
            self.wf(),
        ensures
            self.dispatched_by(host, self.forward_or_buffer_all(host, receipts), peer),
        decreases receipts.len(),
    {
        if receipts.len() > 0 {
            self.lemma_forward_or_buffer_dispatched(host, receipts[0], peer);
            let first = self.forward_or_buffer(host, receipts[0]);
            if first.result.is_ok() {
                self.lemma_limits_only(first.strategy, host);
                first.strategy.lemma_forward_or_buffer_all_dispatched(
                    first.host,
                    receipts.drop_first(),
                    peer,
                );
                self.lemma_dispatched_by_both(
                    host,
                    first,
                    self.forward_or_buffer_all(host, receipts),
                    peer,
                );
            }
        } else {
            self.lemma_dispatched_by_host_only(host, host, Ok(()), peer);
        }
    }

    /// Admitting transactions keeps the sum for every peer and takes
    /// nothing out of a queue.
    pub proof fn lemma_admit_under_dispatched(self, host: HostState, limit: GGas, peer: ShardId)
        requires
            self.wf(),
        ensures
            self.dispatched_by(host, self.admit_under(host, limit), peer),
        decreases host.incoming_transactions.len(),
    {
        if host.gas_burnt >= limit || host.incoming_transactions.len() == 0 {
            self.lemma_dispatched_by_host_only(host, host, Ok(()), peer);
        } else {
            let tx = host.incoming_transactions[0];
            let popped = host.pop_transaction();
            if self.global_stop(popped) || filter_stop(popped, tx) {
                self.lemma_dispatched_by_host_only(host, popped, Ok(()), peer);
            } else {
                let accepted = popped.accept(tx);
                self.lemma_dispatched_by_host_only(host, accepted, Ok(()), peer);
                let dispatched = self.forward_or_buffer_all(accepted, popped.accepted(tx));
                self.lemma_forward_or_buffer_all_dispatched(accepted, popped.accepted(tx), peer);
                self.lemma_dispatched_by_both(
                    host,
                    Outcome::done(self, accepted),
                    dispatched,
                    peer,
                );
                if dispatched.result.is_ok() {
                    self.lemma_forward_or_buffer_all_frame(accepted, popped.accepted(tx));
                    self.lemma_limits_only(dispatched.strategy, host);
                    dispatched.strategy.lemma_admit_under_dispatched(dispatched.host, limit, peer);
                    self.lemma_dispatched_by_both(
                        host,
                        dispatched,
                        self.admit_under(host, limit),
                        peer,
                    );
                }
            }
        }
    }

    /// Executing incoming receipts keeps the sum for every peer and takes
    /// nothing out of a queue.
    pub proof fn lemma_process_incoming_receipts_dispatched(self, host: HostState, peer: ShardId)
        requires
            self.wf(),
        ensures
            self.dispatched_by(host, self.process_incoming_receipts(host), peer),
        decreases host.incoming_receipts.len(),
    {
        if host.gas_burnt >= GAS_LIMIT || host.incoming_receipts.len() == 0 {
            self.lemma_dispatched_by_host_only(host, host, Ok(()), peer);
        } else {
            let receipt = host.incoming_receipts[0];
            let popped = host.pop_incoming_receipt();
            let executed = popped.execute(receipt);
            self.lemma_dispatched_by_host_only(host, executed, Ok(()), peer);
            let dispatched = self.forward_or_buffer_all(executed, popped.executed(receipt));
            self.lemma_forward_or_buffer_all_dispatched(executed, popped.executed(receipt), peer);
            self.lemma_dispatched_by_both(host, Outcome::done(self, executed), dispatched, peer);
            if dispatched.result.is_ok() {
                self.lemma_forward_or_buffer_all_frame(executed, popped.executed(receipt));
                self.lemma_limits_only(dispatched.strategy, host);
                dispatched.strategy.lemma_process_incoming_receipts_dispatched(
                    dispatched.host,
                    peer,
                );
                self.lemma_dispatched_by_both(
                    host,
                    dispatched,
                    self.process_incoming_receipts(host),
                    peer,
                );
            }
        }
    }

    /// Draining a buffer keeps everything.
    pub proof fn lemma_drain_queue_kept(self, host: HostState, drained: ShardId, peer: ShardId)
        requires
            self.wf(),
            self.outgoing_queues.contains_key(drained),
            self.outgoing_gas_limit.contains_key(drained),
        ensures
            self.kept_by(host, self.drain_queue(host, drained), peer),
            self.drain_queue(host, drained).result.is_ok(),
        decreases self.buffered(host, drained).len(),
    {
        let queue = self.outgoing_queues[drained];
        let waiting = self.buffered(host, drained);
        let limit = self.outgoing_gas_limit[drained];
        if !host.has_queue(queue) || waiting.len() == 0 || waiting[0].attached_gas > limit {
            self.lemma_kept_by_host_only(host, host, Ok(()), peer);
        } else {
            let next = self.with_limit(drained, (limit - waiting[0].attached_gas) as GGas);
            let popped = host.pop_front(queue);
            let next_host = popped.forward(waiting[0]);
            let step = Outcome::done(next, next_host);
            lemma_gas_sent_to_push(host.forwarded, waiting[0], peer);
            assert(next.outgoing_gas_limit.dom() =~= self.outgoing_gas_limit.dom());
            if self.buffers_hold(host, true) {
                self.lemma_buffers_hold_pop(host, drained, true);
                self.lemma_buffers_hold_unchanged(popped, next, next_host, true);
                assert(self.receipt_fits(drained, self.buffered(host, drained)[0], true));
            }
            if self.buffers_hold(host, false) {
                self.lemma_buffers_hold_pop(host, drained, false);
                self.lemma_buffers_hold_unchanged(popped, next, next_host, false);
            }
            assert(self.kept_by(host, step, peer));
            self.lemma_limits_only(next, host);
            next.lemma_drain_queue_kept(next_host, drained, peer);
            self.lemma_kept_by_both(host, step, self.drain_queue(host, drained), peer);
        }
    }

    /// Draining the buffers of the peers from `from` on keeps everything.
    pub proof fn lemma_process_outgoing_receipts_from_kept(
        self,
        host: HostState,
        from: int,
        peer: ShardId,
    )
        requires
            self.wf(),
        ensures
            self.kept_by(host, self.process_outgoing_receipts_from(host, from), peer),
        decreases self.peers().len() - from,
    {
        if from < 0 || from >= self.peers().len() {
            self.lemma_kept_by_host_only(host, host, Ok(()), peer);
        } else {
            let drained = self.peers()[from];
            if !self.outgoing_gas_limit.contains_key(drained) {
                self.lemma_kept_by_host_only(
                    host,
                    host,
                    Err(StrategyError::MissingSendLimit(drained)),
                    peer,
                );
            } else {
                self.lemma_peers();
                assert(self.peers().to_set().contains(drained));
                self.lemma_drain_queue_kept(host, drained, peer);
                self.lemma_drain_queue_frame(host, drained);
                let step = self.drain_queue(host, drained);
                self.lemma_limits_only(step.strategy, host);
                step.strategy.lemma_process_outgoing_receipts_from_kept(step.host, from + 1, peer);
                self.lemma_kept_by_both(
                    host,
                    step,
                    self.process_outgoing_receipts_from(host, from),
                    peer,
                );
            }
        }
    }

    /// Admitting transactions keeps everything.
    pub proof fn lemma_admit_under_kept(self, host: HostState, limit: GGas, peer: ShardId)
        requires
            self.wf(),
        ensures
            self.kept_by(host, self.admit_under(host, limit), peer),
        decreases host.incoming_transactions.len(),
    {
        if host.gas_burnt >= limit || host.incoming_transactions.len() == 0 {
            self.lemma_kept_by_host_only(host, host, Ok(()), peer);
        } else {
            let tx = host.incoming_transactions[0];
            let popped = host.pop_transaction();
            if self.global_stop(popped) || filter_stop(popped, tx) {
                self.lemma_kept_by_host_only(host, popped, Ok(()), peer);
            } else {
                let accepted = popped.accept(tx);
                self.lemma_kept_by_host_only(host, accepted, Ok(()), peer);
                let dispatched = self.forward_or_buffer_all(accepted, popped.accepted(tx));
                self.lemma_forward_or_buffer_all_kept(accepted, popped.accepted(tx), peer);
                self.lemma_kept_by_both(host, Outcome::done(self, accepted), dispatched, peer);
                if dispatched.result.is_ok() {
                    self.lemma_forward_or_buffer_all_frame(accepted, popped.accepted(tx));
                    self.lemma_limits_only(dispatched.strategy, host);
                    dispatched.strategy.lemma_admit_under_kept(dispatched.host, limit, peer);
                    self.lemma_kept_by_both(host, dispatched, self.admit_under(host, limit), peer);
                }
            }
        }
    }

    /// Executing incoming receipts keeps everything.
    pub proof fn lemma_process_incoming_receipts_kept(self, host: HostState, peer: ShardId)
        requires
            self.wf(),
        ensures
            self.kept_by(host, self.process_incoming_receipts(host), peer),
        decreases host.incoming_receipts.len(),
    {
        if host.gas_burnt >= GAS_LIMIT || host.incoming_receipts.len() == 0 {
            self.lemma_kept_by_host_only(host, host, Ok(()), peer);
        } else {
            let receipt = host.incoming_receipts[0];
            let popped = host.pop_incoming_receipt();
            let executed = popped.execute(receipt);
            self.lemma_kept_by_host_only(host, executed, Ok(()), peer);
            let dispatched = self.forward_or_buffer_all(executed, popped.executed(receipt));
            self.lemma_forward_or_buffer_all_kept(executed, popped.executed(receipt), peer);
            self.lemma_kept_by_both(host, Outcome::done(self, executed), dispatched, peer);
            if dispatched.result.is_ok() {
                self.lemma_forward_or_buffer_all_frame(executed, popped.executed(receipt));
                self.lemma_limits_only(dispatched.strategy, host);
                dispatched.strategy.lemma_process_incoming_receipts_kept(dispatched.host, peer);
                self.lemma_kept_by_both(
                    host,
                    dispatched,
                    self.process_incoming_receipts(host),
                    peer,
                );
            }
        }
    }

    /// The steps of a chunk after the first, together: they keep
    /// everything, and they leave alone what is published in the current
    /// block. Here `self` is the strategy as the first step left it.
    pub open spec fn steps_after_limits(self, host: HostState) -> Outcome {
        let drained = self.process_outgoing_receipts(host);
        if drained.result.is_err() {
            drained
        } else {
            let admitted = drained.strategy.process_new_transactions(drained.host);
            if admitted.result.is_err() {
                admitted
            } else {
                admitted.strategy.process_incoming_receipts(admitted.host)
            }
        }
    }

    /// Draining, admitting and executing keep everything and publish nothing.
    pub proof fn lemma_steps_after_limits_kept(self, host: HostState, peer: ShardId)
        requires
            self.wf(),
        ensures
            self.kept_by(host, self.steps_after_limits(host), peer),
            self.steps_after_limits(host).host.current_block_info == host.current_block_info,
    {
        let drained = self.process_outgoing_receipts(host);
        self.lemma_process_outgoing_receipts_from_kept(host, 0, peer);
        self.lemma_process_outgoing_receipts_from_frame(host, 0);
        self.lemma_limits_only(drained.strategy, host);
        if drained.result.is_ok() {
            let limit = tx_limit(drained.host);
            let admitted = drained.strategy.process_new_transactions(drained.host);
            drained.strategy.lemma_admit_under_kept(drained.host, limit, peer);
            drained.strategy.lemma_admit_under_frame(drained.host, limit);
            self.lemma_kept_by_both(host, drained, admitted, peer);
            drained.strategy.lemma_limits_only(admitted.strategy, host);
            if admitted.result.is_ok() {
                let executed = admitted.strategy.process_incoming_receipts(admitted.host);
                admitted.strategy.lemma_process_incoming_receipts_kept(admitted.host, peer);
                admitted.strategy.lemma_process_incoming_receipts_frame(admitted.host);
                self.lemma_kept_by_both(host, admitted, executed, peer);
            }
        }
    }

    /// How a chunk is made up of its first step, the steps in the middle,
    /// and the last.
    pub proof fn lemma_compute_chunk_unfolded(self, host: HostState)
        ensures
            self.compute_chunk(host) == (if self.shard_id.is_none() {
                Outcome::failed(self, host, StrategyError::UninitializedStrategy)
            } else {
                let limited = self.init_send_limit(host);
                if limited.result.is_err() {
                    limited
                } else {
                    let executed = limited.strategy.steps_after_limits(limited.host);
                    if executed.result.is_err() {
                        executed
                    } else {
                        executed.strategy.update_block_info(executed.host)
                    }
                }
            }),
    {
    }

    /// A chunk hands receipts over only behind those handed over before,
    /// keeps the buffers as they should be, and publishes the shard's own
    /// information, which lies in `[0, 1]`, exactly if it succeeds. Where
    /// the send limits can be computed, the steps after that keep what was
    /// sent to `peer` and what may still be sent to it the same in sum.
    pub proof fn lemma_compute_chunk_kept(self, host: HostState, peer: ShardId)
        requires
            self.wf(),
        ensures
            ({
                let after = self.compute_chunk(host);
                let limited = self.init_send_limit(host);
                &&& host.forwarded.is_prefix_of(after.host.forwarded)
                &&& self.no_local_buffered(host) ==> after.strategy.no_local_buffered(after.host)
                &&& self.buffers_addressed(host) ==> after.strategy.buffers_addressed(after.host)
                &&& self.shard_id.is_some() && limited.result.is_ok() ==> limited.strategy.kept_by(
                    host,
                    after,
                    peer,
                )
                &&& self.shard_id.is_none() || limited.result.is_err() ==> after.host == host
                &&& after.result.is_err() ==> after.host.current_block_info
                    == host.current_block_info
                &&& after.result.is_ok() ==> {
                    let own = self.shard_id.unwrap();
                    &&& after.host.current_block_info == host.current_block_info.insert(
                        own,
                        after.strategy.own_info(after.host),
                    )
                    &&& after.host.current_block_info[own].incoming_congestion.in_unit_interval()
                    &&& after.host.current_block_info[own].outgoing_congestion.in_unit_interval()
                }
            }),
    {
        self.lemma_compute_chunk_unfolded(host);
        let after = self.compute_chunk(host);
        if self.shard_id.is_some() {
            let limited = self.init_send_limit(host);
            self.lemma_init_send_limit(host);
            self.lemma_limits_only(limited.strategy, host);
            let start = limited.strategy;
            if self.buffers_hold(host, true) {
                self.lemma_buffers_hold_unchanged(host, start, host, true);
            }
            if self.buffers_hold(host, false) {
                self.lemma_buffers_hold_unchanged(host, start, host, false);
            }
            if limited.result.is_ok() {
                let executed = start.steps_after_limits(host);
                start.lemma_steps_after_limits_kept(host, peer);
                if executed.result.is_ok() {
                    let published = executed.strategy.update_block_info(executed.host);
                    executed.strategy.lemma_kept_by_host_only(
                        executed.host,
                        published.host,
                        Ok(()),
                        peer,
                    );
                    start.lemma_kept_by_both(host, executed, published, peer);
                    executed.strategy.lemma_buffered_by_queues(
                        executed.host,
                        published.host,
                        executed.strategy.peers().len() as int,
                    );
                }
            }
        }
    }
}

} // verus!

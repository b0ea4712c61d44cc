//! What holds of every chunk, proved of the strategy's semantics.

use vstd::prelude::*;
use crate::error::StrategyError;
use crate::model::HostState;
use crate::model::QueueState;
use crate::receipt::gas_sent_to;
use crate::receipt::lemma_total_gas_drop_first;
use crate::receipt::total_gas;
use crate::receipt::CongestedShardsInfo;
use crate::receipt::Receipt;
use crate::strategy::budget::lemma_gas_sent_to_split;
use crate::strategy::limits::lemma_blend_within;
use crate::strategy::limits::lemma_mix_ends;
use crate::strategy::semantics::lemma_assigned_queues;
use crate::strategy::semantics::lemma_without;
use crate::strategy::semantics::outgoing_queue_name;
use crate::strategy::semantics::send_limit;
use crate::strategy::semantics::tx_limit;
use crate::strategy::semantics::Outcome;
use crate::strategy::semantics::StrategyState;
use crate::strategy::semantics::MAX_SEND_LIMIT;
use crate::strategy::semantics::MIN_SEND_LIMIT;
use crate::units::GGas;
use crate::units::ShardId;

verus! {

impl StrategyState {
    /// What initialisation leaves is well-formed.
    pub proof fn lemma_initialized_wf(self, id: ShardId, all_shards: Seq<ShardId>, registered: nat)
        requires
            self.initialized(id, all_shards, registered),
        ensures
            self.wf(),
    {
        lemma_assigned_queues(self.other_shards, registered);
        lemma_without(all_shards, id);
        assert forall|a: ShardId, b: ShardId|
            self.outgoing_queues.contains_key(a) && self.outgoing_queues.contains_key(b) && a
                != b implies self.outgoing_queues[a] != self.outgoing_queues[b] by {
            let at = self.outgoing_queues[a] - registered;
            let other = self.outgoing_queues[b] - registered;
            assert(self.other_shards[at] == a && self.other_shards[other] == b);
        }
    }

    /// What initialisation leaves is well-formed, its queues are queues of
    /// every host that holds the queues registered up to then, each of
    /// them is the empty queue that was registered for its peer under the
    /// peer's name, and so the buffers hold only rightly addressed receipts.
    pub proof fn lemma_initialized_ready(
        self,
        id: ShardId,
        all_shards: Seq<ShardId>,
        before: Seq<QueueState>,
        host: HostState,
    )
        requires
            self.initialized(id, all_shards, before.len()),
            host.queues == before + self.registered_queues(id),
        ensures
            self.wf(),
            self.registered_in(host),
            self.buffers_addressed(host),
            forall|peer: ShardId| #[trigger]
                self.outgoing_queues.contains_key(peer) ==> host.queues[
                    self.outgoing_queues[peer] as int
                ] == (QueueState {
                    owner: id,
                    name: outgoing_queue_name(peer),
                    receipts: Seq::empty(),
                }),
            forall|i: int|
                0 <= i < self.other_shards.len() && (forall|j: int|
                    i < j < self.other_shards.len() ==> self.other_shards[j]
                        != self.other_shards[i]) ==> self.outgoing_queues[
                    #[trigger] self.other_shards[i]
                ] == before.len() + i,
    {
        self.lemma_initialized_wf(id, all_shards, before.len());
        lemma_assigned_queues(self.other_shards, before.len());
        assert forall|peer: ShardId| #[trigger]
            self.outgoing_queues.contains_key(peer) implies host.has_queue(
            self.outgoing_queues[peer],
        ) && self.buffered(host, peer).len() == 0 && host.queues[
            self.outgoing_queues[peer] as int
        ] == (QueueState {
            owner: id,
            name: outgoing_queue_name(peer),
            receipts: Seq::empty(),
        }) by {
            let at = self.outgoing_queues[peer] - before.len();
            assert(self.other_shards[at] == peer);
            assert(host.queues[before.len() + at] == self.registered_queues(id)[at]);
        }
    }

    /// Where no shard published anything in the block before, the first
    /// step of a chunk succeeds and gives every peer the full send limit.
    pub proof fn lemma_zero_congestion_start(self, host: HostState, peer: ShardId)
        requires
            forall|shard: ShardId| !host.prev_block_info.contains_key(shard),
            self.peers().contains(peer),
        ensures
            self.init_send_limit(host).result.is_ok(),
            self.init_send_limit(host).strategy.outgoing_gas_limit.contains_key(peer),
            self.init_send_limit(host).strategy.outgoing_gas_limit[peer] == MAX_SEND_LIMIT,
    {
        lemma_mix_ends(MAX_SEND_LIMIT, MIN_SEND_LIMIT, 1);
        self.lemma_init_send_limit(host);
        assert forall|k: int| 0 <= k < self.peers().len() implies (#[trigger] send_limit(
            host.info(self.peers()[k]),
        )).is_ok() by {
            assert(host.info(self.peers()[k]) == CongestedShardsInfo::spec_default());
        }
        assert(host.info(peer) == CongestedShardsInfo::spec_default());
        let after = self.init_send_limit(host);
        assert(after.strategy.outgoing_gas_limit.dom().contains(peer));
        assert(Ok::<GGas, StrategyError>(after.strategy.outgoing_gas_limit[peer]) == send_limit(
            host.info(peer),
        ));
    }

    /// What draining the buffer for `peer` comes to: a first part of what
    /// waited is handed over, in its order, and the rest still waits; the
    /// limit shrinks by the gas of what was handed over; and the part
    /// handed over is as long as the limit allows, that is, either nothing
    /// is left or the gas of what is now in front exceeds what is left of
    /// the limit.
    pub proof fn lemma_drain_queue_takes_what_fits(self, host: HostState, peer: ShardId)
        requires
            self.outgoing_gas_limit.contains_key(peer),
        ensures
            ({
                let after = self.drain_queue(host, peer);
                let waiting = self.buffered(host, peer);
                let left = after.strategy.buffered(after.host, peer);
                let sent = waiting.len() - left.len();
                &&& left.len() <= waiting.len()
                &&& left == waiting.skip(sent)
                &&& after.host.forwarded == host.forwarded + waiting.take(sent)
                &&& after.strategy.outgoing_gas_limit.contains_key(peer)
                &&& after.strategy.outgoing_gas_limit[peer] + total_gas(waiting.take(sent))
                    == self.outgoing_gas_limit[peer]
                &&& left.len() == 0 || left[0].attached_gas
                    > after.strategy.outgoing_gas_limit[peer]
            }),
        decreases self.buffered(host, peer).len(),
    {
        let queue = self.outgoing_queues[peer];
        let waiting = self.buffered(host, peer);
        let limit = self.outgoing_gas_limit[peer];
        if !host.has_queue(queue) || waiting.len() == 0 || waiting[0].attached_gas > limit {
            assert(waiting.skip(0) =~= waiting);
            assert(host.forwarded + waiting.take(0) =~= host.forwarded);
            assert(waiting.take(0) =~= Seq::<Receipt>::empty());
        } else {
            let next = self.with_limit(peer, (limit - waiting[0].attached_gas) as GGas);
            let next_host = host.pop_front(queue).forward(waiting[0]);
            next.lemma_drain_queue_takes_what_fits(next_host, peer);
            let after = self.drain_queue(host, peer);
            let rest = next.buffered(next_host, peer);
            assert(rest == waiting.drop_first());
            let left = after.strategy.buffered(after.host, peer);
            let sent = waiting.len() - left.len();
            assert(rest.skip(sent - 1) =~= waiting.skip(sent));
            assert(next_host.forwarded + rest.take(sent - 1) =~= host.forwarded + waiting.take(
                sent,
            ));
            lemma_total_gas_drop_first(waiting.take(sent));
            assert(waiting.take(sent).drop_first() =~= rest.take(sent - 1));
        }
    }

    /// A receipt to the strategy's own shard is handed over at once,
    /// whatever the limits are, and nothing else changes.
    pub proof fn lemma_local_receipt_forwarded(self, host: HostState, receipt: Receipt)
        requires
            self.shard_id == Some(receipt.receiver),
        ensures
            self.forward_or_buffer(host, receipt) == Outcome::done(self, host.forward(receipt)),
    {
    }

    /// In a well-formed strategy, buffers that hold rightly addressed
    /// receipts hold none to the strategy's own shard.
    pub proof fn lemma_addressed_not_local(self, host: HostState)
        requires
            self.wf(),
            self.buffers_addressed(host),
        ensures
            self.no_local_buffered(host),
    {
        assert forall|peer: ShardId, k: int|
            self.outgoing_queues.contains_key(peer) && 0 <= k < self.buffered(host, peer).len()
            implies self.receipt_fits(peer, #[trigger] self.buffered(host, peer)[k], false) by {
            assert(self.receipt_fits(peer, self.buffered(host, peer)[k], true));
            assert(self.other_shards.to_set().contains(peer));
            if self.shard_id.is_some() {
                assert(self.all_shards.to_set().remove(self.shard_id.unwrap()).contains(peer));
            }
        }
    }

    /// Of one chunk and one peer: the gas of the receipts that the chunk
    /// hands over to the peer is what the peer's send limit was at the
    /// start of the chunk less what is left of it, so never more than that
    /// limit. Where the send limits cannot be computed, the chunk hands
    /// over nothing.
    pub proof fn lemma_sent_within_limit(self, host: HostState, peer: ShardId)
        requires
            self.wf(),
            self.buffers_addressed(host),
            self.peers().contains(peer),
        ensures
            ({
                let after = self.compute_chunk(host);
                let sent = after.host.forwarded.skip(host.forwarded.len() as int);
                if self.init_send_limit(host).result.is_ok() {
                    &&& after.strategy.outgoing_gas_limit.contains_key(peer)
                    &&& send_limit(host.info(peer)) == Ok::<GGas, StrategyError>(
                        (gas_sent_to(sent, peer) + after.strategy.outgoing_gas_limit[peer]) as GGas,
                    )
                    &&& gas_sent_to(sent, peer) + after.strategy.outgoing_gas_limit[peer]
                        <= MAX_SEND_LIMIT
                } else {
                    sent.len() == 0
                }
            }),
    {
        let after = self.compute_chunk(host);
        self.lemma_peers();
        assert(self.other_shards.to_set().contains(peer));
        assert(self.shard_id.is_some());
        assert(self.shard_id != Some(peer));
        let limited = self.init_send_limit(host);
        self.lemma_init_send_limit(host);
        self.lemma_compute_chunk_kept(host, peer);
        if limited.result.is_ok() {
            let start = limited.strategy;
            self.lemma_buffers_hold_unchanged(host, start, host, true);
            assert(start.outgoing_gas_limit.dom().contains(peer));
            lemma_gas_sent_to_split(after.host.forwarded, host.forwarded.len() as int, peer);
            assert(after.host.forwarded.take(host.forwarded.len() as int) =~= host.forwarded);
            lemma_blend_within(host.info(peer).incoming_congestion);
        }
    }

    /// What the shard publishes about itself lies in `[0, 1]`.
    pub proof fn lemma_own_info_in_unit_interval(self, host: HostState)
        ensures
            self.own_info(host).incoming_congestion.in_unit_interval(),
            self.own_info(host).outgoing_congestion.in_unit_interval(),
    {
    }

    /// Publishing twice on an unchanged host publishes the same as
    /// publishing once.
    pub proof fn lemma_update_block_info_idempotent(self, host: HostState)
        ensures
            ({
                let once = self.update_block_info(host);
                &&& once.strategy.own_info(once.host) == self.own_info(host)
                &&& once.strategy.update_block_info(once.host) == once
            }),
    {
        let once = self.update_block_info(host);
        self.lemma_buffered_by_queues(host, once.host, self.peers().len() as int);
        match self.shard_id {
            None => {},
            Some(id) => {
                let info = self.own_info(host);
                assert(host.current_block_info.insert(id, info).insert(id, info)
                    =~= host.current_block_info.insert(id, info));
            },
        }
    }

    /// A chunk reads nothing of what is published in the current block:
    /// whatever stands there, the chunk ends with the same result, leaves
    /// the strategy the same, and leaves the host the same but for what is
    /// published in the current block.
    pub proof fn lemma_current_block_not_read(
        self,
        host: HostState,
        published: Map<ShardId, CongestedShardsInfo>,
    )
        ensures
            ({
                let plain = self.compute_chunk(host);
                let other = self.compute_chunk(host.republished(published));
                &&& other.result == plain.result
                &&& other.strategy == plain.strategy
                &&& other.host == plain.host.republished(other.host.current_block_info)
            }),
    {
        let changed = host.republished(published);
        self.lemma_compute_chunk_unfolded(host);
        self.lemma_compute_chunk_unfolded(changed);
        if self.shard_id.is_some() {
            self.without_limits().lemma_init_send_limit_from_republished(host, 0, published);
            let limited = self.init_send_limit(host);
            self.lemma_init_send_limit(host);
            if limited.result.is_ok() {
                let start = limited.strategy;
                start.lemma_process_outgoing_receipts_from_republished(host, 0, published);
                let drained = start.process_outgoing_receipts(host);
                if drained.result.is_ok() {
                    let limit = tx_limit(drained.host);
                    assert(tx_limit(
                        drained.host.republished(published),
                    ) == limit);
                    drained.strategy.lemma_admit_under_republished(drained.host, limit, published);
                    let admitted = drained.strategy.process_new_transactions(drained.host);
                    if admitted.result.is_ok() {
                        admitted.strategy.lemma_process_incoming_receipts_republished(
                            admitted.host,
                            published,
                        );
                        let executed = admitted.strategy.process_incoming_receipts(admitted.host);
                        if executed.result.is_ok() {
                            executed.strategy.lemma_buffered_by_queues(
                                executed.host,
                                executed.host.republished(published),
                                executed.strategy.peers().len() as int,
                            );
                        }
                    }
                }
            }
        }
    }

    /// One chunk, seen whole: the chunk's own information is published
    /// exactly if the chunk succeeds, and it lies in `[0, 1]`; receipts
    /// handed over before stay handed over; buffers without receipts to the
    /// strategy's own shard stay so, and buffers that held rightly addressed
    /// receipts still do; to no peer more gas is handed over than the
    /// peer's send limit at the start of the chunk; and the chunk fails
    /// only for the reasons that [`Self::chunk_failure`] names.
    pub proof fn lemma_compute_chunk(self, host: HostState)
        requires
            self.wf(),
        ensures
            ({
                let after = self.compute_chunk(host);
                let sent = after.host.forwarded.skip(host.forwarded.len() as int);
                &&& after.result.is_err() ==> after.host.current_block_info
                    == host.current_block_info
                &&& after.result.is_ok() ==> {
                    let own = self.shard_id.unwrap();
                    &&& after.host.current_block_info == host.current_block_info.insert(
                        own,
                        after.strategy.own_info(after.host),
                    )
                    &&& after.host.current_block_info[own].incoming_congestion.in_unit_interval()
                    &&& after.host.current_block_info[own].outgoing_congestion.in_unit_interval()
                }
                &&& host.forwarded.is_prefix_of(after.host.forwarded)
                &&& self.no_local_buffered(host) ==> after.strategy.no_local_buffered(after.host)
                &&& self.buffers_addressed(host) ==> after.strategy.buffers_addressed(after.host)
                &&& forall|peer: ShardId|
                    self.buffers_addressed(host) && self.peers().contains(peer)
                        ==> match #[trigger] send_limit(host.info(peer)) {
                        Ok(limit) => gas_sent_to(sent, peer) <= limit,
                        Err(_) => after.host.forwarded == host.forwarded,
                    }
                &&& self.chunk_failure(host, after.result)
            }),
    {
        let after = self.compute_chunk(host);
        let sent = after.host.forwarded.skip(host.forwarded.len() as int);
        self.lemma_compute_chunk_failure(host);
        self.lemma_compute_chunk_kept(host, 0);
        assert forall|peer: ShardId|
            self.buffers_addressed(host) && self.peers().contains(peer) implies match
            #[trigger] send_limit(host.info(peer)) {
            Ok(limit) => gas_sent_to(sent, peer) <= limit,
            Err(_) => after.host.forwarded == host.forwarded,
        } by {
            self.lemma_sent_within_limit(host, peer);
            self.lemma_init_send_limit(host);
            if self.init_send_limit(host).result.is_err() {
                assert(sent.len() == 0);
                assert(gas_sent_to(sent, peer) == 0);
                assert(after.host.forwarded =~= host.forwarded);
            } else {
                let k = choose|k: int| 0 <= k < self.peers().len() && self.peers()[k]
                    == peer;
                assert(send_limit(host.info(self.peers()[k])).is_ok());
            }
        }
    }
}

} // verus!

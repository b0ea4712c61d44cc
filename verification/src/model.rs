//! The host's side of a chunk: the queues it owns, the work it meters, and
//! what it hands to and takes from a strategy.

use vstd::prelude::*;
use std::collections::BTreeMap;
use std::collections::VecDeque;
use crate::queue::Queue;
use crate::receipt::CongestedShardsInfo;
use crate::receipt::Receipt;
use crate::receipt::Transaction;
use crate::units::GGas;
use crate::units::QueueId;
use crate::units::ReceiptId;
use crate::units::ShardId;
use crate::units::TransactionId;

verus! {

/// What a registered queue is, as the contracts see it.
pub struct QueueState {
    /// The shard for which the queue was registered.
    pub owner: ShardId,
    /// The name under which it was registered.
    pub name: Seq<char>,
    /// The receipts that wait in it, the next to leave first.
    pub receipts: Seq<Receipt>,
}

/// What the host holds during one chunk, as the contracts see it.
pub struct HostState {
    /// The shard whose chunk this is.
    pub shard: ShardId,
    /// The registered queues; a `QueueId` is a position here.
    pub queues: Seq<QueueState>,
    /// The receipts that wait to be executed on this shard.
    pub incoming_receipts: Seq<Receipt>,
    /// The transactions that wait to be admitted on this shard.
    pub incoming_transactions: Seq<TransactionId>,
    /// The store of transactions; a `TransactionId` is a position here.
    pub transactions: Seq<Transaction>,
    /// What executing a receipt produces, by the receipt's id.
    pub produced: Map<ReceiptId, Vec<Receipt>>,
    /// What the shards published in the block before this one.
    pub prev_block_info: Map<ShardId, CongestedShardsInfo>,
    /// What is published in this block.
    pub current_block_info: Map<ShardId, CongestedShardsInfo>,
    /// The receipts handed over for delivery, in the order of the handing over.
    pub forwarded: Seq<Receipt>,
    /// The executable gas spent in this chunk so far.
    pub gas_burnt: GGas,
}

impl HostState {
    /// Every transaction that waits is one of the store.
    pub open spec fn wf(self) -> bool {
        forall|i: int|
            0 <= i < self.incoming_transactions.len() ==> (
            #[trigger] self.incoming_transactions[i]) < self.transactions.len()
    }

    /// A change that leaves alone the transactions that wait, and takes
    /// nothing out of the store, keeps the state well-formed.
    pub proof fn lemma_wf_kept(self, after: HostState)
        requires
            self.wf(),
            after.incoming_transactions == self.incoming_transactions,
            after.transactions.len() >= self.transactions.len(),
        ensures
            after.wf(),
    {
        assert forall|i: int| 0 <= i < after.incoming_transactions.len() implies (
        #[trigger] after.incoming_transactions[i]) < after.transactions.len() by {
            assert(self.incoming_transactions[i] < self.transactions.len());
        }
    }

    /// `queue` names a registered queue.
    pub open spec fn has_queue(self, queue: QueueId) -> bool {
        queue < self.queues.len()
    }

    /// What `shard` published in the previous block; a shard that published
    /// nothing counts as not congested.
    pub open spec fn info(self, shard: ShardId) -> CongestedShardsInfo {
        if self.prev_block_info.contains_key(shard) {
            self.prev_block_info[shard]
        } else {
            CongestedShardsInfo::spec_default()
        }
    }

    /// The host after `receipt` was handed over for delivery.
    pub open spec fn forward(self, receipt: Receipt) -> HostState {
        HostState { forwarded: self.forwarded.push(receipt), ..self }
    }

    /// The host after `receipts` took the place of what waited in `queue`.
    /// Where `queue` names no registered queue, nothing changes.
    pub open spec fn with_queue(self, queue: QueueId, receipts: Seq<Receipt>) -> HostState {
        if self.has_queue(queue) {
            HostState {
                queues: self.queues.update(
                    queue as int,
                    QueueState { receipts, ..self.queues[queue as int] },
                ),
                ..self
            }
        } else {
            self
        }
    }

    /// The host after `receipt` was put at the back of `queue`.
    pub open spec fn push_back(self, queue: QueueId, receipt: Receipt) -> HostState {
        self.with_queue(queue, self.queues[queue as int].receipts.push(receipt))
    }

    /// The host after the front of `queue` was taken out.
    pub open spec fn pop_front(self, queue: QueueId) -> HostState {
        self.with_queue(queue, self.queues[queue as int].receipts.drop_first())
    }

    /// The host after the transaction that waited longest was taken out.
    pub open spec fn pop_transaction(self) -> HostState {
        HostState { incoming_transactions: self.incoming_transactions.drop_first(), ..self }
    }

    /// The host after the incoming receipt that waited longest was taken out.
    pub open spec fn pop_incoming_receipt(self) -> HostState {
        HostState { incoming_receipts: self.incoming_receipts.drop_first(), ..self }
    }

    /// The host after `gas` was spent. The meter stops at the largest `u64`.
    pub open spec fn burn(self, gas: GGas) -> HostState {
        HostState {
            gas_burnt: if self.gas_burnt + gas > u64::MAX {
                u64::MAX
            } else {
                (self.gas_burnt + gas) as GGas
            },
            ..self
        }
    }

    /// The receipts that accepting `tx` produces.
    pub open spec fn accepted(self, tx: TransactionId) -> Seq<Receipt> {
        self.transactions[tx as int].receipts@
    }

    /// The host after `tx` was accepted: its conversion was paid for.
    pub open spec fn accept(self, tx: TransactionId) -> HostState {
        self.burn(self.transactions[tx as int].conversion_gas)
    }

    /// The receipts that executing `receipt` produces: those on record for
    /// its id, and none where nothing is on record.
    pub open spec fn executed(self, receipt: Receipt) -> Seq<Receipt> {
        if self.produced.contains_key(receipt.id) {
            self.produced[receipt.id]@
        } else {
            Seq::empty()
        }
    }

    /// The host after `receipt` was executed: its execution was paid for.
    pub open spec fn execute(self, receipt: Receipt) -> HostState {
        self.burn(receipt.execution_gas)
    }

    /// The host with `published` as what is published in this block.
    pub open spec fn republished(
        self,
        published: Map<ShardId, CongestedShardsInfo>,
    ) -> HostState {
        HostState { current_block_info: published, ..self }
    }

    /// The host after `shard` published `info` in this block.
    pub open spec fn publish(self, shard: ShardId, info: CongestedShardsInfo) -> HostState {
        HostState { current_block_info: self.current_block_info.insert(shard, info), ..self }
    }
}

/// A queue together with what it was registered under.
struct RegisteredQueue {
    owner: ShardId,
    name: String,
    queue: Queue,
}

impl RegisteredQueue {
    /// The queue as the contracts see it.
    spec fn state(self) -> QueueState {
        QueueState { owner: self.owner, name: self.name@, receipts: self.queue@ }
    }
}

/// The queues of a simulation. It hands out a handle for each queue that
/// is registered, and the handle stays good for as long as the bundle lives.
pub struct QueueBundle {
    entries: Vec<RegisteredQueue>,
}

impl View for QueueBundle {
    type V = Seq<QueueState>;

    /// The queues in the order in which they were registered.
    closed spec fn view(&self) -> Seq<QueueState> {
        self.entries@.map_values(|entry: RegisteredQueue| entry.state())
    }
}

impl QueueBundle {
    /// Every queue of the bundle keeps its sums right.
    pub closed spec fn wf(&self) -> bool {
        forall|i: int| 0 <= i < self.entries.len() ==> (#[trigger] self.entries[i]).queue.wf()
    }

    /// A bundle without queues.
    pub fn new() -> (bundle: QueueBundle)
        ensures
            bundle.wf(),
            bundle@ == Seq::<QueueState>::empty(),
    {
        let bundle = QueueBundle { entries: Vec::new() };
        assert(bundle@ =~= Seq::<QueueState>::empty());
        bundle
    }

    /// The number of queues registered so far.
    pub fn len(&self) -> (len: usize)
        ensures
            len == self@.len(),
    {
        self.entries.len()
    }

    /// Registers an empty queue for `owner` under `name`. The handle is the
    /// number of queues registered before.
    pub fn register_queue(&mut self, owner: ShardId, name: String) -> (id: QueueId)
        requires
            old(self).wf(),
        ensures
            final(self).wf(),
            id == old(self)@.len(),
            final(self)@ == old(self)@.push(
                (QueueState { owner, name: name@, receipts: Seq::empty() }),
            ),
    {
        let id = self.entries.len();
        let ghost name_view = name@;
        self.entries.push(RegisteredQueue { owner, name, queue: Queue::new() });
        assert(self@ =~= old(self)@.push(
            QueueState { owner, name: name_view, receipts: Seq::empty() },
        ));
        id
    }

    /// The shard for which `id` was registered.
    pub fn owner(&self, id: QueueId) -> (owner: ShardId)
        requires
            id < self@.len(),
        ensures
            owner == self@[id as int].owner,
    {
        self.entries[id].owner
    }

    /// The name under which `id` was registered.
    pub fn name(&self, id: QueueId) -> (name: &String)
        requires
            id < self@.len(),
        ensures
            name@ == self@[id as int].name,
    {
        &self.entries[id].name
    }

    /// The queue that `id` names, to read.
    pub fn queue(&self, id: QueueId) -> (queue: &Queue)
        requires
            self.wf(),
            id < self@.len(),
        ensures
            queue.wf(),
            queue@ == self@[id as int].receipts,
    {
        &self.entries[id].queue
    }

    /// Puts `receipt` at the back of the queue that `id` names.
    pub fn push_back(&mut self, id: QueueId, receipt: Receipt)
        requires
            old(self).wf(),
            id < old(self)@.len(),
        ensures
            final(self).wf(),
            final(self)@ == old(self)@.update(
                id as int,
                (QueueState {
                    receipts: old(self)@[id as int].receipts.push(receipt),
                    ..old(self)@[id as int]
                }),
            ),
    {
        self.entries[id].queue.push_back(receipt);
        assert(self@ =~= old(self)@.update(
            id as int,
            QueueState {
                receipts: old(self)@[id as int].receipts.push(receipt),
                ..old(self)@[id as int]
            },
        ));
    }

    /// Takes out the front of the queue that `id` names, if it holds anything.
    pub fn pop_front(&mut self, id: QueueId) -> (receipt: Option<Receipt>)
        requires
            old(self).wf(),
            id < old(self)@.len(),
        ensures
            final(self).wf(),
            old(self)@[id as int].receipts.len() == 0 ==> receipt.is_none() && final(self)@
                == old(self)@,
            old(self)@[id as int].receipts.len() > 0 ==> receipt == Some(
                old(self)@[id as int].receipts[0],
            ) && final(self)@ == old(self)@.update(
                id as int,
                (QueueState {
                    receipts: old(self)@[id as int].receipts.drop_first(),
                    ..old(self)@[id as int]
                }),
            ),
    {
        let receipt = self.entries[id].queue.pop_front();
        proof {
            if old(self)@[id as int].receipts.len() == 0 {
                assert(self@ =~= old(self)@);
            } else {
                assert(self@ =~= old(self)@.update(
                    id as int,
                    QueueState {
                        receipts: old(self)@[id as int].receipts.drop_first(),
                        ..old(self)@[id as int]
                    },
                ));
            }
        }
        receipt
    }
}

/// A copy of `receipts`.
fn copy_receipts(receipts: &Vec<Receipt>) -> (copy: Vec<Receipt>)
    ensures
        copy@ == receipts@,
{
    let mut copy: Vec<Receipt> = Vec::new();
    let mut i: usize = 0;
    while i < receipts.len()
        invariant
            i <= receipts.len(),
            copy@ == receipts@.take(i as int),
        decreases receipts.len() - i,
    {
        copy.push(receipts[i]);
        i += 1;
        assert(copy@ =~= receipts@.take(i as int));
    }
    assert(receipts@.take(receipts.len() as int) =~= receipts@);
    copy
}

/// What the host lends to a strategy for the length of one chunk. The
/// strategy reaches the host's queues, stores and meters only through it.
pub struct ChunkExecutionContext {
    shard: ShardId,
    queues: QueueBundle,
    incoming_receipts: Queue,
    incoming_transactions: VecDeque<TransactionId>,
    transactions: Vec<Transaction>,
    produced: BTreeMap<ReceiptId, Vec<Receipt>>,
    prev_block_info: BTreeMap<ShardId, CongestedShardsInfo>,
    current_block_info: BTreeMap<ShardId, CongestedShardsInfo>,
    forwarded: Vec<Receipt>,
    gas_burnt: GGas,
}

impl View for ChunkExecutionContext {
    type V = HostState;

    /// What the host holds at this point of the chunk.
    closed spec fn view(&self) -> HostState {
        HostState {
            shard: self.shard,
            queues: self.queues@,
            incoming_receipts: self.incoming_receipts@,
            incoming_transactions: self.incoming_transactions@,
            transactions: self.transactions@,
            produced: self.produced@,
            prev_block_info: self.prev_block_info@,
            current_block_info: self.current_block_info@,
            forwarded: self.forwarded@,
            gas_burnt: self.gas_burnt,
        }
    }
}

impl ChunkExecutionContext {
    /// The queues keep their sums right, and every transaction that waits
    /// is one of the store.
    pub closed spec fn wf(&self) -> bool {
        &&& self.queues.wf()
        &&& self.incoming_receipts.wf()
        &&& self@.wf()
    }

    /// A chunk of `shard` over `queues`, with nothing to do yet, nothing
    /// published and nothing spent.
    pub fn new(shard: ShardId, queues: QueueBundle) -> (ctx: ChunkExecutionContext)
        requires
            queues.wf(),
        ensures
            ctx.wf(),
            ctx@ == (HostState {
                shard,
                queues: queues@,
                incoming_receipts: Seq::empty(),
                incoming_transactions: Seq::empty(),
                transactions: Seq::empty(),
                produced: Map::empty(),
                prev_block_info: Map::empty(),
                current_block_info: Map::empty(),
                forwarded: Seq::empty(),
                gas_burnt: 0,
            }),
    {
        ChunkExecutionContext {
            shard,
            queues,
            incoming_receipts: Queue::new(),
            incoming_transactions: VecDeque::new(),
            transactions: Vec::new(),
            produced: BTreeMap::new(),
            prev_block_info: BTreeMap::new(),
            current_block_info: BTreeMap::new(),
            forwarded: Vec::new(),
            gas_burnt: 0,
        }
    }

    /// Ends the chunk and gives the queues back.
    pub fn into_queues(self) -> (queues: QueueBundle)
        requires
            self.wf(),
        ensures
            queues.wf(),
            queues@ == self@.queues,
    {
        self.queues
    }

    /// Puts `tx` into the store and at the back of those that wait.
    pub fn submit_transaction(&mut self, tx: Transaction) -> (id: TransactionId)
        requires
            old(self).wf(),
        ensures
            final(self).wf(),
            id == old(self)@.transactions.len(),
            final(self)@ == (HostState {
                transactions: old(self)@.transactions.push(tx),
                incoming_transactions: old(self)@.incoming_transactions.push(id),
                ..old(self)@
            }),
    {
        let id = self.transactions.len();
        self.transactions.push(tx);
        self.incoming_transactions.push_back(id);
        proof {
            assert forall|i: int| 0 <= i < self@.incoming_transactions.len() implies (
            #[trigger] self@.incoming_transactions[i]) < self@.transactions.len() by {
                if i < old(self)@.incoming_transactions.len() {
                    assert(old(self)@.incoming_transactions[i] < old(self)@.transactions.len());
                }
            }
        }
        id
    }

    /// Puts `receipt` at the back of the receipts that wait to be executed.
    pub fn deliver_receipt(&mut self, receipt: Receipt)
        requires
            old(self).wf(),
        ensures
            final(self).wf(),
            final(self)@ == (HostState {
                incoming_receipts: old(self)@.incoming_receipts.push(receipt),
                ..old(self)@
            }),
    {
        self.incoming_receipts.push_back(receipt);
        proof {
            old(self)@.lemma_wf_kept(self@);
        }
    }

    /// Records that executing the receipt `id` produces `receipts`.
    pub fn set_produced(&mut self, id: ReceiptId, receipts: Vec<Receipt>)
        requires
            old(self).wf(),
        ensures
            final(self).wf(),
            final(self)@ == (HostState {
                produced: old(self)@.produced.insert(id, receipts),
                ..old(self)@
            }),
    {
        self.produced.insert(id, receipts);
        proof {
            old(self)@.lemma_wf_kept(self@);
        }
    }

    /// Records what `shard` published in the previous block.
    pub fn set_prev_block_info(&mut self, shard: ShardId, info: CongestedShardsInfo)
        requires
            old(self).wf(),
        ensures
            final(self).wf(),
            final(self)@ == (HostState {
                prev_block_info: old(self)@.prev_block_info.insert(shard, info),
                ..old(self)@
            }),
    {
        self.prev_block_info.insert(shard, info);
        proof {
            old(self)@.lemma_wf_kept(self@);
        }
    }

    /// The shard whose chunk this is.
    pub fn shard(&self) -> (shard: ShardId)
        ensures
            shard == self@.shard,
    {
        self.shard
    }

    /// The number of registered queues.
    pub fn queue_count(&self) -> (count: usize)
        ensures
            count == self@.queues.len(),
    {
        self.queues.len()
    }

    /// The queue that `id` names, to read.
    pub fn queue(&self, id: QueueId) -> (queue: &Queue)
        requires
            self.wf(),
            self@.has_queue(id),
        ensures
            queue.wf(),
            queue@ == self@.queues[id as int].receipts,
    {
        self.queues.queue(id)
    }

    /// The name under which the queue `id` was registered.
    pub fn queue_name(&self, id: QueueId) -> (name: &String)
        requires
            self@.has_queue(id),
        ensures
            name@ == self@.queues[id as int].name,
    {
        self.queues.name(id)
    }

    /// Puts `receipt` at the back of the queue that `id` names.
    pub fn push_back(&mut self, id: QueueId, receipt: Receipt)
        requires
            old(self).wf(),
            old(self)@.has_queue(id),
        ensures
            final(self).wf(),
            final(self)@ == old(self)@.push_back(id, receipt),
    {
        self.queues.push_back(id, receipt);
        proof {
            old(self)@.lemma_wf_kept(self@);
        }
    }

    /// Takes out the front of the queue that `id` names, if it holds anything.
    pub fn pop_front(&mut self, id: QueueId) -> (receipt: Option<Receipt>)
        requires
            old(self).wf(),
            old(self)@.has_queue(id),
        ensures
            final(self).wf(),
            old(self)@.queues[id as int].receipts.len() == 0 ==> receipt.is_none()
                && final(self)@ == old(self)@,
            old(self)@.queues[id as int].receipts.len() > 0 ==> receipt == Some(
                old(self)@.queues[id as int].receipts[0],
            ) && final(self)@ == old(self)@.pop_front(id),
    {
        let receipt = self.queues.pop_front(id);
        proof {
            old(self)@.lemma_wf_kept(self@);
        }
        receipt
    }

    /// Hands `receipt` over for delivery to its receiver. This burns no gas.
    pub fn forward_receipt(&mut self, receipt: Receipt)
        requires
            old(self).wf(),
        ensures
            final(self).wf(),
            final(self)@ == old(self)@.forward(receipt),
    {
        self.forwarded.push(receipt);
        proof {
            old(self)@.lemma_wf_kept(self@);
        }
    }

    /// The receipts handed over for delivery so far.
    pub fn forwarded(&self) -> (receipts: &Vec<Receipt>)
        ensures
            receipts@ == self@.forwarded,
    {
        &self.forwarded
    }

    /// The receipts that wait to be executed, to read.
    pub fn incoming_receipts(&self) -> (queue: &Queue)
        requires
            self.wf(),
        ensures
            queue.wf(),
            queue@ == self@.incoming_receipts,
    {
        &self.incoming_receipts
    }

    /// Takes out the incoming receipt that has waited longest, if any waits.
    pub fn pop_incoming_receipt(&mut self) -> (receipt: Option<Receipt>)
        requires
            old(self).wf(),
        ensures
            final(self).wf(),
            old(self)@.incoming_receipts.len() == 0 ==> receipt.is_none()
                && final(self)@ == old(self)@,
            old(self)@.incoming_receipts.len() > 0 ==> receipt == Some(
                old(self)@.incoming_receipts[0],
            ) && final(self)@ == old(self)@.pop_incoming_receipt(),
    {
        let receipt = self.incoming_receipts.pop_front();
        proof {
            old(self)@.lemma_wf_kept(self@);
        }
        receipt
    }

    /// The transactions that wait to be admitted, to read.
    pub fn incoming_transactions(&self) -> (queue: &VecDeque<TransactionId>)
        ensures
            queue@ == self@.incoming_transactions,
    {
        &self.incoming_transactions
    }

    /// Takes out the transaction that has waited longest, if any waits.
    pub fn pop_transaction(&mut self) -> (tx: Option<TransactionId>)
        requires
            old(self).wf(),
        ensures
            final(self).wf(),
            old(self)@.incoming_transactions.len() == 0 ==> tx.is_none()
                && final(self)@ == old(self)@,
            old(self)@.incoming_transactions.len() > 0 ==> tx == Some(
                old(self)@.incoming_transactions[0],
            ) && final(self)@ == old(self)@.pop_transaction(),
            tx matches Some(id) ==> id < final(self)@.transactions.len(),
    {
        let tx = self.incoming_transactions.pop_front();
        proof {
            if old(self)@.incoming_transactions.len() > 0 {
                assert(self@.incoming_transactions
                    =~= old(self)@.incoming_transactions.drop_first());
                assert forall|i: int| 0 <= i < self@.incoming_transactions.len() implies (
                #[trigger] self@.incoming_transactions[i]) < self@.transactions.len() by {
                    assert(self@.incoming_transactions[i] == old(self)@.incoming_transactions[i
                        + 1]);
                }
                assert(old(self)@.incoming_transactions[0] < old(self)@.transactions.len());
            }
        }
        tx
    }

    /// The shard to which the first receipt of `tx` goes.
    pub fn tx_receiver(&self, tx: TransactionId) -> (receiver: ShardId)
        requires
            tx < self@.transactions.len(),
        ensures
            receiver == self@.transactions[tx as int].receiver,
    {
        self.transactions[tx].receiver
    }

    /// Turns `tx` into the receipts it starts with, and spends what the
    /// conversion costs.
    pub fn accept_transaction(&mut self, tx: TransactionId) -> (receipts: Vec<Receipt>)
        requires
            old(self).wf(),
            tx < old(self)@.transactions.len(),
        ensures
            final(self).wf(),
            receipts@ == old(self)@.accepted(tx),
            final(self)@ == old(self)@.accept(tx),
    {
        let receipts = copy_receipts(&self.transactions[tx].receipts);
        self.gas_burnt = self.gas_burnt.saturating_add(self.transactions[tx].conversion_gas);
        proof {
            old(self)@.lemma_wf_kept(self@);
        }
        receipts
    }

    /// Executes `receipt`: spends what the execution costs and returns the
    /// receipts that it produces.
    pub fn execute_receipt(&mut self, receipt: Receipt) -> (receipts: Vec<Receipt>)
        requires
            old(self).wf(),
        ensures
            final(self).wf(),
            receipts@ == old(self)@.executed(receipt),
            final(self)@ == old(self)@.execute(receipt),
    {
        let receipts = match self.produced.get(&receipt.id) {
            Some(produced) => copy_receipts(produced),
            None => Vec::new(),
        };
        self.gas_burnt = self.gas_burnt.saturating_add(receipt.execution_gas);
        proof {
            old(self)@.lemma_wf_kept(self@);
        }
        receipts
    }

    /// The executable gas spent in this chunk so far.
    pub fn gas_burnt(&self) -> (gas: GGas)
        ensures
            gas == self@.gas_burnt,
    {
        self.gas_burnt
    }

    /// What the shards published in the block before this one.
    pub fn prev_block_info(&self) -> (infos: &BTreeMap<ShardId, CongestedShardsInfo>)
        ensures
            infos@ == self@.prev_block_info,
    {
        &self.prev_block_info
    }

    /// What is published in this block so far.
    pub fn current_block_info(&self) -> (infos: &BTreeMap<ShardId, CongestedShardsInfo>)
        ensures
            infos@ == self@.current_block_info,
    {
        &self.current_block_info
    }

    /// Publishes `info` for `shard` in this block, in place of what `shard`
    /// had published in it before.
    pub fn publish(&mut self, shard: ShardId, info: CongestedShardsInfo)
        requires
            old(self).wf(),
        ensures
            final(self).wf(),
            final(self)@ == old(self)@.publish(shard, info),
    {
        self.current_block_info.insert(shard, info);
        proof {
            old(self)@.lemma_wf_kept(self@);
        }
    }
}

} // verus!

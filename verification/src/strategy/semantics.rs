//! What the strategy does to its own state and to the host, as
//! mathematics. The executable strategy is proved to do exactly this.

use vstd::prelude::*;
use crate::error::StrategyError;
use crate::model::HostState;
use crate::model::QueueState;
use crate::ratio::Ratio;
use crate::receipt::total_gas;
use crate::receipt::total_size;
use crate::receipt::CongestedShardsInfo;
use crate::receipt::Receipt;
use crate::units::GGas;
use crate::units::QueueId;
use crate::units::ShardId;
use crate::units::TransactionId;
use crate::units::GAS_LIMIT;
use crate::units::PGAS;
use crate::units::TGAS;

verus! {

/// The send limit towards a peer that is congested to the full.
pub const MIN_SEND_LIMIT: GGas = 0;

/// The send limit towards a peer that is not congested.
pub const MAX_SEND_LIMIT: GGas = 30 * PGAS;

/// The gas for new transactions when this shard is congested to the full.
pub const MIN_TX_GAS: GGas = 5 * TGAS;

/// The gas for new transactions when this shard is not congested.
pub const MAX_TX_GAS: GGas = 500 * TGAS;

/// The attached gas of waiting incoming receipts that counts as full congestion.
pub const MAX_CONGESTION_INCOMING_GAS: GGas = 100 * PGAS;

/// The attached gas of buffered outgoing receipts that counts as full congestion.
pub const MAX_CONGESTION_OUTGOING_GAS: GGas = 100 * PGAS;

/// The bytes of buffered outgoing receipts that count as full congestion.
pub const MAX_CONGESTION_MEMORY_CONSUMPTION: u64 = 500_000_000;

/// No shard admits transactions while some shard's outgoing congestion is
/// above this many tenths.
pub const GLOBAL_OUTGOING_CONGESTION_LIMIT_TENTHS: u64 = 9;

/// No shard admits a transaction to a shard whose outgoing congestion is
/// above this many tenths.
pub const FILTER_OUTGOING_CONGESTION_LIMIT_TENTHS: u64 = 5;

/// `tenths / 10`.
pub open spec fn tenths(tenths: u64) -> Ratio {
    Ratio { num: tenths, den: 10 }
}

/// `sum / den`, rounded to the nearest whole number, a half rounded up.
pub open spec fn rounded_quotient(sum: int, den: int) -> int {
    (2 * sum + den) / (2 * den)
}

/// The point between `x` and `y` that lies the share `a` of the way from
/// `x` to `y`, rounded to the nearest whole number: `x * (1 - a) + y * a`.
pub open spec fn blend(x: u64, y: u64, a: Ratio) -> int {
    rounded_quotient(x * (a.den - a.num) + y * a.num, a.den as int)
}

/// [`blend`] for a level in `[0, 1]`, and a refusal of any other.
pub open spec fn spec_mix(x: u64, y: u64, a: Ratio) -> Result<u64, StrategyError> {
    if a.in_unit_interval() {
        Ok(blend(x, y, a) as u64)
    } else {
        Err(StrategyError::InvalidCongestion(a))
    }
}

/// The gas that may be sent in one chunk to a peer that published `info`.
pub open spec fn send_limit(info: CongestedShardsInfo) -> Result<GGas, StrategyError> {
    spec_mix(MAX_SEND_LIMIT, MIN_SEND_LIMIT, info.incoming_congestion)
}

/// How full the queue of incoming receipts is.
pub open spec fn incoming_congestion(host: HostState) -> Ratio {
    Ratio::spec_clamped(total_gas(host.incoming_receipts), MAX_CONGESTION_INCOMING_GAS)
}

/// The executable gas up to which the chunk admits new transactions.
pub open spec fn tx_limit(host: HostState) -> GGas {
    blend(MAX_TX_GAS, MIN_TX_GAS, incoming_congestion(host)) as GGas
}

/// Whether the shard that `tx` goes to is too congested to be sent more.
pub open spec fn filter_stop(host: HostState, tx: TransactionId) -> bool {
    host.info(host.transactions[tx as int].receiver).outgoing_congestion.spec_exceeds(
        tenths(FILTER_OUTGOING_CONGESTION_LIMIT_TENTHS),
    )
}

/// The decimal digit that stands for `value`, for a `value` under ten.
pub open spec fn digit(value: nat) -> char {
    if value == 0 {
        '0'
    } else if value == 1 {
        '1'
    } else if value == 2 {
        '2'
    } else if value == 3 {
        '3'
    } else if value == 4 {
        '4'
    } else if value == 5 {
        '5'
    } else if value == 6 {
        '6'
    } else if value == 7 {
        '7'
    } else if value == 8 {
        '8'
    } else {
        '9'
    }
}

/// `value` written in decimal digits, without leading zeros.
pub open spec fn decimal(value: nat) -> Seq<char>
    decreases value,
{
    if value < 10 {
        seq![digit(value)]
    } else {
        decimal(value / 10).push(digit(value % 10))
    }
}

/// The name of the queue that buffers receipts to `shard`:
/// `outgoing_receipts_` and the shard's number in decimal.
pub open spec fn outgoing_queue_name(shard: ShardId) -> Seq<char> {
    "outgoing_receipts_"@ + decimal(shard as nat)
}

/// What a strategy holds between chunks, as the contracts see it.
pub struct StrategyState {
    /// The shard that the strategy works for, once it is initialised.
    pub shard_id: Option<ShardId>,
    /// The shards as they were given at initialisation.
    pub all_shards: Seq<ShardId>,
    /// The given shards without the strategy's own, in the order in which they were given.
    pub other_shards: Seq<ShardId>,
    /// For each peer the queue that buffers receipts to it.
    pub outgoing_queues: Map<ShardId, QueueId>,
    /// For each peer the gas that may still be sent to it in this chunk.
    pub outgoing_gas_limit: Map<ShardId, GGas>,
}

/// Where a step of a chunk leaves strategy and host, and whether it failed.
pub struct Outcome {
    /// The strategy after the step.
    pub strategy: StrategyState,
    /// The host after the step.
    pub host: HostState,
    /// Whether the step went through.
    pub result: Result<(), StrategyError>,
}

impl Outcome {
    /// The outcome with `published` as what is published in the current block.
    pub open spec fn republished(self, published: Map<ShardId, CongestedShardsInfo>) -> Outcome {
        Outcome { host: self.host.republished(published), ..self }
    }


    /// The step went through and left `strategy` and `host`.
    pub open spec fn done(strategy: StrategyState, host: HostState) -> Outcome {
        Outcome { strategy, host, result: Ok(()) }
    }

    /// The step failed with `error` and left `strategy` and `host`.
    pub open spec fn failed(
        strategy: StrategyState,
        host: HostState,
        error: StrategyError,
    ) -> Outcome {
        Outcome { strategy, host, result: Err(error) }
    }
}

/// Each is smaller than the next.
pub open spec fn ascending(shards: Seq<ShardId>) -> bool {
    forall|i: int, j: int| 0 <= i < j < shards.len() ==> shards[i] < shards[j]
}

/// `shards`, which are in ascending order, with `shard` put in at its
/// place, unless it is there already.
pub open spec fn with_in_order(shards: Seq<ShardId>, shard: ShardId) -> Seq<ShardId>
    decreases shards.len(),
{
    if shards.len() == 0 || shards.last() < shard {
        shards.push(shard)
    } else if shards.last() == shard {
        shards
    } else {
        with_in_order(shards.drop_last(), shard).push(shards.last())
    }
}

/// The shards of `shards`, each once, in ascending order.
pub open spec fn in_order(shards: Seq<ShardId>) -> Seq<ShardId>
    decreases shards.len(),
{
    if shards.len() == 0 {
        Seq::empty()
    } else {
        with_in_order(in_order(shards.drop_last()), shards.last())
    }
}

/// The shards of `shards` other than `id`, in the order in which they are given.
pub open spec fn without(shards: Seq<ShardId>, id: ShardId) -> Seq<ShardId> {
    shards.filter(|shard: ShardId| shard != id)
}

/// The queues that the peers get when they are registered one after the
/// other and `registered` queues exist before: the peer at position `i`
/// gets the queue `registered + i`, and a peer that is given again gets
/// the queue of its last position.
pub open spec fn assigned_queues(peers: Seq<ShardId>, registered: nat) -> Map<ShardId, QueueId>
    decreases peers.len(),
{
    if peers.len() == 0 {
        Map::empty()
    } else {
        assigned_queues(peers.drop_last(), registered).insert(
            peers.last(),
            (registered + peers.len() - 1) as QueueId,
        )
    }
}

/// One more of a sequence is one more in its set.
pub proof fn lemma_take_next_to_set(shards: Seq<ShardId>, count: int)
    requires
        0 <= count < shards.len(),
    ensures
        shards.take(count + 1) =~= shards.take(count).push(shards[count]),
        shards.take(count + 1).to_set() =~= shards.take(count).to_set().insert(shards[count]),
{
    let shorter = shards.take(count);
    let longer = shards.take(count + 1);
    assert(longer =~= shorter.push(shards[count]));
    assert forall|value: ShardId|
        longer.to_set().contains(value) <==> shorter.to_set().insert(shards[count]).contains(
            value,
        ) by {
        if shorter.contains(value) {
            let k = choose|k: int| 0 <= k < shorter.len() && shorter[k] == value;
            assert(longer[k] == value);
        }
        if value == shards[count] {
            assert(longer[count] == value);
        }
    }
}

/// Putting a shard into an ascending sequence leaves it ascending, and
/// adds the shard to what it holds.
pub proof fn lemma_with_in_order(shards: Seq<ShardId>, shard: ShardId)
    requires
        ascending(shards),
    ensures
        ascending(with_in_order(shards, shard)),
        with_in_order(shards, shard).to_set() =~= shards.to_set().insert(shard),
    decreases shards.len(),
{
    let after = with_in_order(shards, shard);
    if shards.len() == 0 || shards.last() < shard {
        assert forall|i: int, j: int| 0 <= i < j < after.len() implies after[i] < after[j] by {
            if j == shards.len() {
                assert(shards[i] <= shards.last());
            }
        }
        assert forall|value: ShardId|
            after.to_set().contains(value) <==> shards.to_set().insert(shard).contains(value) by {
            if shards.contains(value) {
                let k = choose|k: int| 0 <= k < shards.len() && shards[k] == value;
                assert(after[k] == value);
            }
            if value == shard {
                assert(after[shards.len() as int] == value);
            }
        }
    } else if shards.last() == shard {
        assert(shards[shards.len() - 1] == shard);
        assert(shards.to_set().insert(shard) =~= shards.to_set());
    } else {
        let front = shards.drop_last();
        let placed = with_in_order(front, shard);
        lemma_with_in_order(front, shard);
        assert forall|i: int, j: int| 0 <= i < j < after.len() implies after[i] < after[j] by {
            if j == placed.len() {
                assert(placed.to_set().contains(placed[i]));
                if placed[i] != shard {
                    let k = choose|k: int| 0 <= k < front.len() && front[k] == placed[i];
                    assert(shards[k] < shards[shards.len() - 1]);
                }
            } else {
                assert(placed[i] < placed[j]);
            }
        }
        assert forall|value: ShardId|
            after.to_set().contains(value) <==> shards.to_set().insert(shard).contains(value) by {
            if after.contains(value) {
                let k = choose|k: int| 0 <= k < after.len() && after[k] == value;
                if k < placed.len() {
                    assert(placed.to_set().contains(placed[k]));
                    if value != shard {
                        let m = choose|m: int| 0 <= m < front.len() && front[m] == value;
                        assert(shards[m] == value);
                    }
                } else {
                    assert(shards[shards.len() - 1] == value);
                }
            }
            if shards.contains(value) {
                let k = choose|k: int| 0 <= k < shards.len() && shards[k] == value;
                if k < front.len() {
                    assert(front[k] == value);
                    assert(placed.to_set().contains(value));
                    let m = choose|m: int| 0 <= m < placed.len() && placed[m] == value;
                    assert(after[m] == value);
                } else {
                    assert(after[placed.len() as int] == value);
                }
            }
            if value == shard {
                assert(placed.to_set().contains(shard));
                let m = choose|m: int| 0 <= m < placed.len() && placed[m] == shard;
                assert(after[m] == value);
            }
        }
    }
}

/// The shards in order are ascending, and they are the shards given.
pub proof fn lemma_in_order(shards: Seq<ShardId>)
    ensures
        ascending(in_order(shards)),
        in_order(shards).to_set() =~= shards.to_set(),
    decreases shards.len(),
{
    if shards.len() == 0 {
        assert(shards.to_set() =~= Set::<ShardId>::empty());
        assert(in_order(shards).to_set() =~= Set::<ShardId>::empty());
    } else {
        lemma_in_order(shards.drop_last());
        lemma_with_in_order(in_order(shards.drop_last()), shards.last());
        lemma_take_next_to_set(shards, shards.len() - 1);
        assert(shards.take(shards.len() - 1) =~= shards.drop_last());
        assert(shards.take(shards.len() as int) =~= shards);
    }
}

/// There is only one ascending sequence of the same shards.
pub proof fn lemma_ascending_unique(first: Seq<ShardId>, second: Seq<ShardId>)
    requires
        ascending(first),
        ascending(second),
        first.to_set() =~= second.to_set(),
    ensures
        first == second,
    decreases first.len(),
{
    if first.len() == 0 {
        if second.len() > 0 {
            assert(second.to_set().contains(second[0]));
            assert(first.contains(second[0]));
        }
        assert(first =~= second);
    } else {
        assert(first.to_set().contains(first.last()));
        assert(second.contains(first.last()));
        let j = choose|j: int| 0 <= j < second.len() && second[j] == first.last();
        assert(second.to_set().contains(second.last()));
        assert(first.contains(second.last()));
        let i = choose|i: int| 0 <= i < first.len() && first[i] == second.last();
        assert(first[i] <= first[first.len() - 1]);
        assert(second[j] <= second[second.len() - 1]);
        assert(first.last() == second.last());
        let front = first.drop_last();
        let other = second.drop_last();
        assert forall|value: ShardId| front.to_set().contains(value) <==> other.to_set().contains(
            value,
        ) by {
            if front.contains(value) {
                let k = choose|k: int| 0 <= k < front.len() && front[k] == value;
                assert(first[k] < first[first.len() - 1]);
                assert(first.to_set().contains(first[k]));
                let m = choose|m: int| 0 <= m < second.len() && second[m] == value;
                assert(other[m] == value);
            }
            if other.contains(value) {
                let k = choose|k: int| 0 <= k < other.len() && other[k] == value;
                assert(second[k] < second[second.len() - 1]);
                assert(second.to_set().contains(second[k]));
                let m = choose|m: int| 0 <= m < first.len() && first[m] == value;
                assert(front[m] == value);
            }
        }
        lemma_ascending_unique(front, other);
        assert(first =~= front.push(first.last()));
        assert(second =~= other.push(second.last()));
    }
}

/// Leaving a shard out goes shard by shard.
pub proof fn lemma_without_push(shards: Seq<ShardId>, shard: ShardId, id: ShardId)
    ensures
        without(shards.push(shard), id) == (if shard != id {
            without(shards, id).push(shard)
        } else {
            without(shards, id)
        }),
{
    reveal(Seq::filter);
    assert(shards.push(shard).drop_last() =~= shards);
}

/// What is left without a shard is all but that shard.
pub proof fn lemma_without(shards: Seq<ShardId>, id: ShardId)
    ensures
        without(shards, id).to_set() =~= shards.to_set().remove(id),
    decreases shards.len(),
{
    if shards.len() == 0 {
        reveal(Seq::filter);
        assert(without(shards, id) =~= Seq::<ShardId>::empty());
        assert(shards.to_set() =~= Set::<ShardId>::empty());
        assert(without(shards, id).to_set() =~= Set::<ShardId>::empty());
    } else {
        let front = shards.drop_last();
        lemma_without(front, id);
        lemma_without_push(front, shards.last(), id);
        assert(front.push(shards.last()) =~= shards);
        lemma_take_next_to_set(shards, shards.len() - 1);
        assert(shards.take(shards.len() - 1) =~= front);
        assert(shards.take(shards.len() as int) =~= shards);
        if shards.last() != id {
            let kept = without(front, id);
            let longer = kept.push(shards.last());
            lemma_take_next_to_set(longer, kept.len() as int);
            assert(longer.take(kept.len() as int) =~= kept);
            assert(longer.take(longer.len() as int) =~= longer);
        }
    }
}

/// Each peer's queue is the one registered at a position where the peer
/// stands, so no two peers share a queue.
pub proof fn lemma_assigned_queues(peers: Seq<ShardId>, registered: nat)
    requires
        registered + peers.len() <= usize::MAX,
    ensures
        assigned_queues(peers, registered).dom() =~= peers.to_set(),
        forall|peer: ShardId| #[trigger]
            assigned_queues(peers, registered).contains_key(peer) ==> {
                let at = assigned_queues(peers, registered)[peer] - registered;
                0 <= at < peers.len() && peers[at] == peer
            },
        forall|i: int|
            0 <= i < peers.len() && (forall|j: int| i < j < peers.len() ==> peers[j] != peers[i])
                ==> assigned_queues(peers, registered)[#[trigger] peers[i]] == registered + i,
    decreases peers.len(),
{
    let queues = assigned_queues(peers, registered);
    if peers.len() == 0 {
        assert(peers.to_set() =~= Set::<ShardId>::empty());
    } else {
        let front = peers.drop_last();
        let before = assigned_queues(front, registered);
        lemma_assigned_queues(front, registered);
        lemma_take_next_to_set(peers, peers.len() - 1);
        assert(peers.take(peers.len() - 1) =~= front);
        assert(peers.take(peers.len() as int) =~= peers);
        assert forall|peer: ShardId| #[trigger] queues.contains_key(peer) implies {
            let at = queues[peer] - registered;
            0 <= at < peers.len() && peers[at] == peer
        } by {
            if peer != peers.last() {
                assert(before.contains_key(peer));
                let at = before[peer] - registered;
                assert(front[at] == peer);
            }
        }
        assert forall|i: int|
            0 <= i < peers.len() && (forall|j: int|
                i < j < peers.len() ==> peers[j] != peers[i]) implies queues[#[trigger] peers[i]]
            == registered + i by {
            if i < front.len() {
                assert(peers[peers.len() - 1] != peers[i]);
                assert(front[i] == peers[i]);
                assert forall|j: int| i < j < front.len() implies front[j] != front[i] by {
                    assert(peers[j] != peers[i]);
                }
                assert(before[front[i]] == registered + i);
            }
        }
    }
}

impl StrategyState {
    /// A strategy that has not been initialised.
    pub open spec fn empty() -> StrategyState {
        StrategyState {
            shard_id: None,
            all_shards: Seq::empty(),
            other_shards: Seq::empty(),
            outgoing_queues: Map::empty(),
            outgoing_gas_limit: Map::empty(),
        }
    }

    /// No two peers share a queue.
    pub open spec fn queues_distinct(self) -> bool {
        forall|a: ShardId, b: ShardId|
            #![trigger self.outgoing_queues[a], self.outgoing_queues[b]]
            self.outgoing_queues.contains_key(a) && self.outgoing_queues.contains_key(b) && a != b
                ==> self.outgoing_queues[a] != self.outgoing_queues[b]
    }

    /// The peers in the order in which the steps of a chunk visit them:
    /// each once, in ascending order.
    pub open spec fn peers(self) -> Seq<ShardId> {
        in_order(self.other_shards)
    }

    /// The peers in order are ascending, and they are the other shards.
    pub proof fn lemma_peers(self)
        ensures
            ascending(self.peers()),
            self.peers().to_set() =~= self.other_shards.to_set(),
            forall|shard: ShardId|
                self.peers().contains(shard) <==> self.other_shards.contains(shard),
    {
        lemma_in_order(self.other_shards);
        assert forall|shard: ShardId|
            self.peers().contains(shard) <==> self.other_shards.contains(shard) by {
            assert(self.peers().to_set().contains(shard) <==> self.other_shards.to_set().contains(
                shard,
            ));
        }
    }

    /// The other shards are the given shards without the strategy's own,
    /// and each has a queue of its own. Before initialisation there are no
    /// shards.
    pub open spec fn wf(self) -> bool {
        &&& self.outgoing_queues.dom() =~= self.other_shards.to_set()
        &&& self.queues_distinct()
        &&& match self.shard_id {
            Some(id) => self.other_shards.to_set() =~= self.all_shards.to_set().remove(id),
            None => self.all_shards.len() == 0 && self.other_shards.len() == 0,
        }
    }

    /// What initialisation for shard `id` among `all_shards` leaves, when
    /// `registered` queues existed before: the other shards are the given
    /// shards without `id`, in the order in which they were given, and the
    /// one at position `i` has the queue `registered + i`. There are no send
    /// limits yet.
    pub open spec fn initialized(
        self,
        id: ShardId,
        all_shards: Seq<ShardId>,
        registered: nat,
    ) -> bool {
        &&& self.shard_id == Some(id)
        &&& self.all_shards == all_shards
        &&& self.other_shards == without(all_shards, id)
        &&& registered + self.other_shards.len() <= usize::MAX
        &&& self.outgoing_queues == assigned_queues(self.other_shards, registered)
        &&& self.outgoing_gas_limit == Map::<ShardId, GGas>::empty()
    }

    /// The queues that initialisation for shard `id` registers: one for
    /// each of the other shards, in their order, empty, owned by `id` and
    /// named after the other shard.
    pub open spec fn registered_queues(self, id: ShardId) -> Seq<QueueState> {
        Seq::new(
            self.other_shards.len(),
            |i: int|
                QueueState {
                    owner: id,
                    name: outgoing_queue_name(self.other_shards[i]),
                    receipts: Seq::empty(),
                },
        )
    }

    /// Every queue of the strategy is one that `host` has.
    pub open spec fn registered_in(self, host: HostState) -> bool {
        forall|shard: ShardId| #[trigger]
            self.outgoing_queues.contains_key(shard) ==> host.has_queue(
                self.outgoing_queues[shard],
            )
    }

    /// A strategy with the same queues stays registered in a host with as
    /// many queues.
    pub proof fn lemma_registered_kept(
        self,
        host: HostState,
        after: StrategyState,
        after_host: HostState,
    )
        requires
            self.registered_in(host),
            after.outgoing_queues == self.outgoing_queues,
            after_host.queues.len() >= host.queues.len(),
        ensures
            after.registered_in(after_host),
    {
        assert forall|shard: ShardId| #[trigger]
            after.outgoing_queues.contains_key(shard) implies after_host.has_queue(
            after.outgoing_queues[shard],
        ) by {
            assert(self.outgoing_queues.contains_key(shard));
        }
    }

    /// A strategy that differs only in its limits is as well-formed, and
    /// registered in the same hosts.
    pub proof fn lemma_limits_only(self, after: StrategyState, host: HostState)
        requires
            after == (StrategyState { outgoing_gas_limit: after.outgoing_gas_limit, ..self }),
        ensures
            self.wf() ==> after.wf(),
            self.registered_in(host) ==> after.registered_in(host),
    {
        if self.registered_in(host) {
            self.lemma_registered_kept(host, after, host);
        }
    }

    /// In a well-formed strategy a shard other than its own has a queue
    /// exactly if it is one of the shards given.
    pub proof fn lemma_peer_has_queue(self, shard: ShardId)
        requires
            self.wf(),
            self.shard_id.is_some(),
            shard != self.shard_id.unwrap(),
        ensures
            self.outgoing_queues.contains_key(shard) <==> self.all_shards.contains(shard),
            self.outgoing_queues.contains_key(shard) <==> self.other_shards.contains(shard),
    {
        assert(self.other_shards.to_set().contains(shard) <==> self.other_shards.contains(shard));
        assert(self.all_shards.to_set().contains(shard) <==> self.all_shards.contains(shard));
        assert(self.outgoing_queues.dom().contains(shard) <==> self.other_shards.to_set().contains(
            shard,
        ));
    }

    /// The strategy with `limit` as what may still be sent to `shard`.
    pub open spec fn with_limit(self, shard: ShardId, limit: GGas) -> StrategyState {
        StrategyState { outgoing_gas_limit: self.outgoing_gas_limit.insert(shard, limit), ..self }
    }

    /// The strategy with no send limit for anyone.
    pub open spec fn without_limits(self) -> StrategyState {
        StrategyState { outgoing_gas_limit: Map::empty(), ..self }
    }

    /// The receipts that are buffered for `peer`: what waits in the peer's
    /// queue, and nothing where the host has no such queue.
    pub open spec fn buffered(self, host: HostState, peer: ShardId) -> Seq<Receipt> {
        if host.has_queue(self.outgoing_queues[peer]) {
            host.queues[self.outgoing_queues[peer] as int].receipts
        } else {
            Seq::empty()
        }
    }

    /// The bytes that are buffered for the first `upto` peers together.
    pub open spec fn buffered_size(self, host: HostState, upto: int) -> nat
        decreases upto,
    {
        if upto <= 0 {
            0
        } else {
            self.buffered_size(host, upto - 1) + total_size(
                self.buffered(host, self.peers()[upto - 1]),
            )
        }
    }

    /// The attached gas that is buffered for the first `upto` peers together.
    pub open spec fn buffered_gas(self, host: HostState, upto: int) -> nat
        decreases upto,
    {
        if upto <= 0 {
            0
        } else {
            self.buffered_gas(host, upto - 1) + total_gas(
                self.buffered(host, self.peers()[upto - 1]),
            )
        }
    }

    /// How full the outgoing buffers are, by bytes.
    pub open spec fn memory_congestion(self, host: HostState) -> Ratio {
        Ratio::spec_clamped(
            self.buffered_size(host, self.peers().len() as int),
            MAX_CONGESTION_MEMORY_CONSUMPTION,
        )
    }

    /// How full the outgoing buffers are, by attached gas.
    pub open spec fn gas_congestion(self, host: HostState) -> Ratio {
        Ratio::spec_clamped(
            self.buffered_gas(host, self.peers().len() as int),
            MAX_CONGESTION_OUTGOING_GAS,
        )
    }

    /// How full the outgoing buffers are: the worse of bytes and gas.
    pub open spec fn outgoing_congestion(self, host: HostState) -> Ratio {
        self.memory_congestion(host).spec_max(self.gas_congestion(host))
    }

    /// Whether some shard is so congested that nobody admits transactions.
    pub open spec fn global_stop(self, host: HostState) -> bool {
        exists|i: int|
            0 <= i < self.all_shards.len() && (#[trigger] host.info(
                self.all_shards[i],
            )).outgoing_congestion.spec_exceeds(tenths(GLOBAL_OUTGOING_CONGESTION_LIMIT_TENTHS))
    }

    /// One receipt that the chunk produced is sent on or kept back. A
    /// receipt to the strategy's own shard is handed over at once. A receipt
    /// to a peer is handed over if its gas fits into what may still be sent
    /// to that peer, which then shrinks by that much; else it is buffered
    /// and the limit stays.
    pub open spec fn forward_or_buffer(self, host: HostState, receipt: Receipt) -> Outcome {
        if self.shard_id.is_none() {
            Outcome::failed(self, host, StrategyError::UninitializedStrategy)
        } else if receipt.receiver == self.shard_id.unwrap() {
            Outcome::done(self, host.forward(receipt))
        } else if !self.all_shards.contains(receipt.receiver) {
            Outcome::failed(self, host, StrategyError::UnknownShard(receipt.receiver))
        } else if !self.outgoing_gas_limit.contains_key(receipt.receiver) {
            Outcome::failed(self, host, StrategyError::MissingSendLimit(receipt.receiver))
        } else if receipt.attached_gas > self.outgoing_gas_limit[receipt.receiver] {
            Outcome::done(self, host.push_back(self.outgoing_queues[receipt.receiver], receipt))
        } else {
            Outcome::done(
                self.with_limit(
                    receipt.receiver,
                    (self.outgoing_gas_limit[receipt.receiver] - receipt.attached_gas) as GGas,
                ),
                host.forward(receipt),
            )
        }
    }

    /// [`Self::forward_or_buffer`] for each of `receipts` in turn, up to
    /// the first that fails.
    pub open spec fn forward_or_buffer_all(self, host: HostState, receipts: Seq<Receipt>) -> Outcome
        decreases receipts.len(),
    {
        if receipts.len() == 0 {
            Outcome::done(self, host)
        } else {
            let first = self.forward_or_buffer(host, receipts[0]);
            if first.result.is_err() {
                first
            } else {
                first.strategy.forward_or_buffer_all(first.host, receipts.drop_first())
            }
        }
    }

    /// The send limits for the peers from position `from` on are computed
    /// and recorded, in ascending order of the peers, up to the first peer
    /// whose published level cannot be turned into a limit.
    pub open spec fn init_send_limit_from(self, host: HostState, from: int) -> Outcome
        decreases self.peers().len() - from,
    {
        if from < 0 || from >= self.peers().len() {
            Outcome::done(self, host)
        } else {
            let peer = self.peers()[from];
            match send_limit(host.info(peer)) {
                Err(error) => Outcome::failed(self, host, error),
                Ok(limit) => self.with_limit(peer, limit).init_send_limit_from(host, from + 1),
            }
        }
    }

    /// The first step of a chunk: the limits of the chunk before are
    /// dropped, and each peer gets the limit that its published incoming
    /// congestion allows.
    pub open spec fn init_send_limit(self, host: HostState) -> Outcome {
        self.without_limits().init_send_limit_from(host, 0)
    }

    /// Receipts leave the buffer for `peer` from its front and are handed
    /// over, each against its gas, until the buffer is empty or the gas of
    /// its front no longer fits into what may still be sent.
    pub open spec fn drain_queue(self, host: HostState, peer: ShardId) -> Outcome
        decreases self.buffered(host, peer).len(),
    {
        let queue = self.outgoing_queues[peer];
        let waiting = self.buffered(host, peer);
        let limit = self.outgoing_gas_limit[peer];
        if !host.has_queue(queue) || waiting.len() == 0 || waiting[0].attached_gas > limit {
            Outcome::done(self, host)
        } else {
            self.with_limit(peer, (limit - waiting[0].attached_gas) as GGas).drain_queue(
                host.pop_front(queue).forward(waiting[0]),
                peer,
            )
        }
    }

    /// The buffers for the peers from position `from` on are drained, in
    /// ascending order of the peers, up to the first peer without a limit.
    pub open spec fn process_outgoing_receipts_from(self, host: HostState, from: int) -> Outcome
        decreases self.peers().len() - from,
    {
        if from < 0 || from >= self.peers().len() {
            Outcome::done(self, host)
        } else {
            let peer = self.peers()[from];
            if !self.outgoing_gas_limit.contains_key(peer) {
                Outcome::failed(self, host, StrategyError::MissingSendLimit(peer))
            } else {
                let drained = self.drain_queue(host, peer);
                proof {
                    self.lemma_drain_queue_frame(host, peer);
                }
                drained.strategy.process_outgoing_receipts_from(drained.host, from + 1)
            }
        }
    }

    /// The second step of a chunk: what was buffered in earlier chunks is
    /// sent on as far as the limits allow.
    pub open spec fn process_outgoing_receipts(self, host: HostState) -> Outcome {
        self.process_outgoing_receipts_from(host, 0)
    }

    /// Transactions are admitted while the gas burnt is under `limit`.
    /// Each is taken from the front of those that wait. With the first that
    /// meets a global stop or a filter stop the admission ends for this
    /// chunk, and that transaction is not looked at again. Any other is
    /// accepted, and its receipts are sent on or buffered.
    pub open spec fn admit_under(self, host: HostState, limit: GGas) -> Outcome
        decreases host.incoming_transactions.len(),
    {
        if host.gas_burnt >= limit || host.incoming_transactions.len() == 0 {
            Outcome::done(self, host)
        } else {
            let tx = host.incoming_transactions[0];
            let popped = host.pop_transaction();
            if self.global_stop(popped) || filter_stop(popped, tx) {
                Outcome::done(self, popped)
            } else {
                let dispatched = self.forward_or_buffer_all(popped.accept(tx), popped.accepted(tx));
                if dispatched.result.is_err() {
                    dispatched
                } else {
                    proof {
                        self.lemma_forward_or_buffer_all_frame(
                            popped.accept(tx),
                            popped.accepted(tx),
                        );
                    }
                    dispatched.strategy.admit_under(dispatched.host, limit)
                }
            }
        }
    }

    /// The third step of a chunk: new transactions are admitted up to a gas
    /// limit that shrinks as the shard's own incoming congestion grows.
    pub open spec fn process_new_transactions(self, host: HostState) -> Outcome {
        self.admit_under(host, tx_limit(host))
    }

    /// The fourth step of a chunk: incoming receipts are executed from the
    /// front of those that wait while the gas burnt is under the chunk's
    /// ceiling, and what they produce is sent on or buffered. What is
    /// left waits for the next chunk.
    pub open spec fn process_incoming_receipts(self, host: HostState) -> Outcome
        decreases host.incoming_receipts.len(),
    {
        if host.gas_burnt >= GAS_LIMIT || host.incoming_receipts.len() == 0 {
            Outcome::done(self, host)
        } else {
            let receipt = host.incoming_receipts[0];
            let popped = host.pop_incoming_receipt();
            let dispatched = self.forward_or_buffer_all(
                popped.execute(receipt),
                popped.executed(receipt),
            );
            if dispatched.result.is_err() {
                dispatched
            } else {
                proof {
                    self.lemma_forward_or_buffer_all_frame(
                        popped.execute(receipt),
                        popped.executed(receipt),
                    );
                }
                dispatched.strategy.process_incoming_receipts(dispatched.host)
            }
        }
    }

    /// What the shard publishes about itself at the end of a chunk.
    pub open spec fn own_info(self, host: HostState) -> CongestedShardsInfo {
        CongestedShardsInfo {
            incoming_congestion: incoming_congestion(host),
            outgoing_congestion: self.outgoing_congestion(host),
        }
    }

    /// The last step of a chunk: the shard publishes its own congestion
    /// in the current block, for its peers to read in the next.
    pub open spec fn update_block_info(self, host: HostState) -> Outcome {
        match self.shard_id {
            None => Outcome::failed(self, host, StrategyError::UninitializedStrategy),
            Some(id) => Outcome::done(self, host.publish(id, self.own_info(host))),
        }
    }

    /// One chunk: the steps in their order, up to the first that fails.
    pub open spec fn compute_chunk(self, host: HostState) -> Outcome {
        if self.shard_id.is_none() {
            Outcome::failed(self, host, StrategyError::UninitializedStrategy)
        } else {
            let limited = self.init_send_limit(host);
            if limited.result.is_err() {
                limited
            } else {
                let drained = limited.strategy.process_outgoing_receipts(limited.host);
                if drained.result.is_err() {
                    drained
                } else {
                    let admitted = drained.strategy.process_new_transactions(drained.host);
                    if admitted.result.is_err() {
                        admitted
                    } else {
                        let executed = admitted.strategy.process_incoming_receipts(admitted.host);
                        if executed.result.is_err() {
                            executed
                        } else {
                            executed.strategy.update_block_info(executed.host)
                        }
                    }
                }
            }
        }
    }

    /// What sending on and buffering leave alone: of the strategy all but
    /// the amounts of the limits, of the host all but the receipts in the
    /// queues and the receipts handed over.
    pub open spec fn dispatch_frame(self, host: HostState, after: Outcome) -> bool {
        &&& after.strategy == StrategyState {
            outgoing_gas_limit: after.strategy.outgoing_gas_limit,
            ..self
        }
        &&& after.strategy.outgoing_gas_limit.dom() =~= self.outgoing_gas_limit.dom()
        &&& after.host == HostState {
            queues: after.host.queues,
            forwarded: after.host.forwarded,
            ..host
        }
        &&& after.host.queues.len() == host.queues.len()
        &&& forall|queue: int|
            0 <= queue < host.queues.len() ==> (#[trigger] after.host.queues[queue]).owner
                == host.queues[queue].owner && after.host.queues[queue].name
                == host.queues[queue].name
    }

    /// Sending one receipt on or keeping it back stays within the frame.
    pub proof fn lemma_forward_or_buffer_frame(self, host: HostState, receipt: Receipt)
        ensures
            self.dispatch_frame(host, self.forward_or_buffer(host, receipt)),
    {
        let after = self.forward_or_buffer(host, receipt);
        assert(after.strategy.outgoing_gas_limit.dom() =~= self.outgoing_gas_limit.dom());
    }

    /// Sending receipts on or keeping them back stays within the frame.
    pub proof fn lemma_forward_or_buffer_all_frame(self, host: HostState, receipts: Seq<Receipt>)
        ensures
            self.dispatch_frame(host, self.forward_or_buffer_all(host, receipts)),
        decreases receipts.len(),
    {
        if receipts.len() > 0 {
            self.lemma_forward_or_buffer_frame(host, receipts[0]);
            let first = self.forward_or_buffer(host, receipts[0]);
            if first.result.is_ok() {
                first.strategy.lemma_forward_or_buffer_all_frame(first.host, receipts.drop_first());
            }
        }
    }

    /// Draining a buffer stays within the frame, and does not fail.
    pub proof fn lemma_drain_queue_frame(self, host: HostState, peer: ShardId)
        requires
            self.outgoing_gas_limit.contains_key(peer),
        ensures
            self.dispatch_frame(host, self.drain_queue(host, peer)),
            self.drain_queue(host, peer).result.is_ok(),
        decreases self.buffered(host, peer).len(),
    {
        let queue = self.outgoing_queues[peer];
        let waiting = self.buffered(host, peer);
        let limit = self.outgoing_gas_limit[peer];
        if !host.has_queue(queue) || waiting.len() == 0 || waiting[0].attached_gas > limit {
        } else {
            let next = self.with_limit(peer, (limit - waiting[0].attached_gas) as GGas);
            let next_host = host.pop_front(queue).forward(waiting[0]);
            next.lemma_drain_queue_frame(next_host, peer);
            assert(next.outgoing_gas_limit.dom() =~= self.outgoing_gas_limit.dom());
        }
    }
}

} // verus!

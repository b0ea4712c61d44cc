//! Receipts, transactions, and what shards publish about their load.

use vstd::prelude::*;
use crate::ratio::Ratio;
use crate::units::GGas;
use crate::units::ReceiptId;
use crate::units::ShardId;

verus! {

/// A unit of work addressed to one shard. It is never split.
#[derive(Clone, Copy, Debug, PartialEq, Eq, Structural)]
pub struct Receipt {
    pub id: ReceiptId,
    /// The shard that executes the receipt.
    pub receiver: ShardId,
    /// The bytes the receipt takes up while it waits in a queue.
    pub size: u64,
    /// The gas that travels with the receipt; send limits are counted in it.
    pub attached_gas: GGas,
    /// The gas that executing the receipt burns.
    pub execution_gas: GGas,
}

/// A transaction as the host's store holds it.
pub struct Transaction {
    /// The shard to which the transaction's first receipt goes.
    pub receiver: ShardId,
    /// The gas that turning the transaction into receipts burns.
    pub conversion_gas: GGas,
    /// The receipts that accepting the transaction produces.
    pub receipts: Vec<Receipt>,
}

/// What a shard tells its peers about its load, once per block.
#[derive(Clone, Copy, Debug, PartialEq, Eq, Structural)]
pub struct CongestedShardsInfo {
    /// How full the shard's queue of receipts to execute is.
    pub incoming_congestion: Ratio,
    /// How full the shard's buffers of receipts to send are.
    pub outgoing_congestion: Ratio,
}

impl CongestedShardsInfo {
    /// What is assumed of a shard that has published nothing: no congestion.
    pub open spec fn spec_default() -> CongestedShardsInfo {
        CongestedShardsInfo {
            incoming_congestion: Ratio::spec_zero(),
            outgoing_congestion: Ratio::spec_zero(),
        }
    }
}

impl Default for CongestedShardsInfo {
    /// No congestion, neither incoming nor outgoing.
    fn default() -> (info: CongestedShardsInfo)
        ensures
            info == CongestedShardsInfo::spec_default(),
    {
        CongestedShardsInfo {
            incoming_congestion: Ratio::zero(),
            outgoing_congestion: Ratio::zero(),
        }
    }
}

/// The attached gas of all receipts of `receipts` together.
pub open spec fn total_gas(receipts: Seq<Receipt>) -> nat
    decreases receipts.len(),
{
    if receipts.len() == 0 {
        0
    } else {
        total_gas(receipts.drop_last()) + receipts.last().attached_gas as nat
    }
}

/// The bytes of all receipts of `receipts` together.
pub open spec fn total_size(receipts: Seq<Receipt>) -> nat
    decreases receipts.len(),
{
    if receipts.len() == 0 {
        0
    } else {
        total_size(receipts.drop_last()) + receipts.last().size as nat
    }
}

/// The attached gas of those receipts of `receipts` that go to `shard`.
pub open spec fn gas_sent_to(receipts: Seq<Receipt>, shard: ShardId) -> nat
    decreases receipts.len(),
{
    if receipts.len() == 0 {
        0
    } else {
        gas_sent_to(receipts.drop_last(), shard) + if receipts.last().receiver == shard {
            receipts.last().attached_gas as nat
        } else {
            0
        }
    }
}

/// A sum of `u64`s is at most the count times the largest `u64`.
pub proof fn lemma_total_gas_bound(receipts: Seq<Receipt>)
    ensures
        total_gas(receipts) <= receipts.len() * u64::MAX,
    decreases receipts.len(),
{
    if receipts.len() > 0 {
        lemma_total_gas_bound(receipts.drop_last());
        assert((receipts.len() - 1) * u64::MAX + u64::MAX == receipts.len() * u64::MAX)
            by (nonlinear_arith);
    }
}

/// A sum of `u64`s is at most the count times the largest `u64`.
pub proof fn lemma_total_size_bound(receipts: Seq<Receipt>)
    ensures
        total_size(receipts) <= receipts.len() * u64::MAX,
    decreases receipts.len(),
{
    if receipts.len() > 0 {
        lemma_total_size_bound(receipts.drop_last());
        assert((receipts.len() - 1) * u64::MAX + u64::MAX == receipts.len() * u64::MAX)
            by (nonlinear_arith);
    }
}

/// Taking the first receipt away takes its gas away.
pub proof fn lemma_total_gas_drop_first(receipts: Seq<Receipt>)
    requires
        receipts.len() > 0,
    ensures
        total_gas(receipts) == receipts[0].attached_gas + total_gas(receipts.drop_first()),
    decreases receipts.len(),
{
    if receipts.len() == 1 {
        assert(receipts.drop_last() =~= receipts.drop_first());
        assert(total_gas(receipts.drop_first()) == 0);
    } else {
        lemma_total_gas_drop_first(receipts.drop_last());
        assert(receipts.drop_last().drop_first() =~= receipts.drop_first().drop_last());
        assert(receipts.drop_first().last() == receipts.last());
        assert(receipts.drop_last()[0] == receipts[0]);
    }
}

/// Taking the first receipt away takes its bytes away.
pub proof fn lemma_total_size_drop_first(receipts: Seq<Receipt>)
    requires
        receipts.len() > 0,
    ensures
        total_size(receipts) == receipts[0].size + total_size(receipts.drop_first()),
    decreases receipts.len(),
{
    if receipts.len() == 1 {
        assert(receipts.drop_last() =~= receipts.drop_first());
        assert(total_size(receipts.drop_first()) == 0);
    } else {
        lemma_total_size_drop_first(receipts.drop_last());
        assert(receipts.drop_last().drop_first() =~= receipts.drop_first().drop_last());
        assert(receipts.drop_first().last() == receipts.last());
        assert(receipts.drop_last()[0] == receipts[0]);
    }
}

} // verus!

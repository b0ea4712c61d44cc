use congestion_model::strategy::semantics::MAX_SEND_LIMIT;
use congestion_model::ChunkExecutionContext;
use congestion_model::CongestedShardsInfo;
use congestion_model::NepStrategy;
use congestion_model::QueueBundle;
use congestion_model::Ratio;
use congestion_model::Receipt;
use congestion_model::StrategyError;
use congestion_model::Transaction;
use congestion_model::GAS_LIMIT;
use congestion_model::PGAS;
use congestion_model::TGAS;

fn receipt(id: u64, receiver: u64, attached_gas: u64) -> Receipt {
    Receipt { id, receiver, size: 100, attached_gas, execution_gas: TGAS }
}

fn info(incoming: Ratio, outgoing: Ratio) -> CongestedShardsInfo {
    CongestedShardsInfo { incoming_congestion: incoming, outgoing_congestion: outgoing }
}

fn ratio(num: u64, den: u64) -> Ratio {
    Ratio { num, den }
}

/// A strategy for shard 0 among the shards 0, 1 and 2, and the queues it registered.
fn three_shards() -> (NepStrategy, QueueBundle) {
    let mut queues = QueueBundle::new();
    let mut strategy = NepStrategy::new();
    strategy.init(0, &[0, 1, 2], &mut queues);
    (strategy, queues)
}

fn transaction_to(receiver: u64, id: u64) -> Transaction {
    Transaction { receiver, conversion_gas: TGAS, receipts: vec![receipt(id, receiver, 10 * TGAS)] }
}

fn gas_to(receipts: &Vec<Receipt>, shard: u64) -> u64 {
    receipts.iter().filter(|r| r.receiver == shard).map(|r| r.attached_gas).sum()
}

#[test]
fn no_congestion_forwards_everything() {
    let (mut strategy, queues) = three_shards();
    let mut ctx = ChunkExecutionContext::new(0, queues);
    for id in 0..3 {
        ctx.submit_transaction(transaction_to(1, id));
    }
    assert_eq!(strategy.compute_chunk(&mut ctx), Ok(()));
    assert_eq!(
        ctx.forwarded(),
        &vec![receipt(0, 1, 10 * TGAS), receipt(1, 1, 10 * TGAS), receipt(2, 1, 10 * TGAS)]
    );
    let to_one = strategy.outgoing_queues[&1];
    assert_eq!(ctx.queue(to_one).len(), 0);
    assert_eq!(ctx.incoming_transactions().len(), 0);
    assert_eq!(ctx.gas_burnt(), 3 * TGAS);
    let published = ctx.current_block_info()[&0];
    assert_eq!(published.outgoing_congestion.num, 0);
    assert_eq!(published.incoming_congestion.num, 0);
    assert_eq!(strategy.outgoing_gas_limit[&1], 30 * PGAS - 30 * TGAS);
    assert_eq!(strategy.outgoing_gas_limit[&2], 30 * PGAS);
}

#[test]
fn fully_congested_peer_gets_everything_buffered() {
    let (mut strategy, queues) = three_shards();
    let mut ctx = ChunkExecutionContext::new(0, queues);
    ctx.set_prev_block_info(1, info(ratio(1, 1), ratio(0, 1)));
    for id in 0..3 {
        ctx.submit_transaction(transaction_to(1, id));
    }
    assert_eq!(strategy.compute_chunk(&mut ctx), Ok(()));
    assert_eq!(strategy.outgoing_gas_limit[&1], 0);
    assert_eq!(ctx.forwarded().len(), 0);
    let to_one = strategy.outgoing_queues[&1];
    assert_eq!(ctx.queue(to_one).len(), 3);
    assert_eq!(ctx.queue(to_one).front(), Some(receipt(0, 1, 10 * TGAS)));
    assert_eq!(ctx.queue(to_one).attached_gas(), 30 * TGAS as u128);
    assert_eq!(ctx.queue(to_one).size(), 300);
    let published = ctx.current_block_info()[&0];
    assert_eq!(published.outgoing_congestion, ratio(30 * TGAS, 100 * PGAS));
}

#[test]
fn global_stop_admits_nothing_but_receipts_are_executed() {
    let (mut strategy, queues) = three_shards();
    let mut ctx = ChunkExecutionContext::new(0, queues);
    ctx.set_prev_block_info(2, info(ratio(0, 1), ratio(95, 100)));
    for id in 0..4 {
        ctx.submit_transaction(transaction_to(1, id));
    }
    ctx.deliver_receipt(receipt(10, 0, TGAS));
    ctx.deliver_receipt(receipt(11, 0, TGAS));
    ctx.set_produced(10, vec![receipt(20, 1, 7 * TGAS)]);
    assert_eq!(strategy.compute_chunk(&mut ctx), Ok(()));
    // The transaction that met the stop is gone, the others wait.
    assert_eq!(ctx.incoming_transactions().len(), 3);
    assert_eq!(ctx.incoming_receipts().len(), 0);
    assert_eq!(ctx.forwarded(), &vec![receipt(20, 1, 7 * TGAS)]);
    assert_eq!(ctx.gas_burnt(), 2 * TGAS);
}

#[test]
fn exactly_nine_tenths_is_no_global_stop() {
    let (mut strategy, queues) = three_shards();
    let mut ctx = ChunkExecutionContext::new(0, queues);
    ctx.set_prev_block_info(2, info(ratio(0, 1), ratio(9, 10)));
    assert!(!strategy.get_global_stop(&ctx));
    ctx.set_prev_block_info(1, info(ratio(0, 1), ratio(91, 100)));
    assert!(strategy.get_global_stop(&ctx));
    ctx.submit_transaction(transaction_to(2, 0));
    assert_eq!(strategy.compute_chunk(&mut ctx), Ok(()));
    assert_eq!(ctx.forwarded().len(), 0);
}

#[test]
fn filter_stop_ends_admission_for_the_chunk() {
    let (mut strategy, queues) = three_shards();
    let mut ctx = ChunkExecutionContext::new(0, queues);
    ctx.set_prev_block_info(1, info(ratio(0, 1), ratio(6, 10)));
    ctx.set_prev_block_info(2, info(ratio(0, 1), ratio(0, 1)));
    let first = ctx.submit_transaction(transaction_to(1, 0));
    let second = ctx.submit_transaction(transaction_to(2, 1));
    let third = ctx.submit_transaction(transaction_to(2, 2));
    assert!(strategy.get_filter_stop(&ctx, first));
    assert!(!strategy.get_filter_stop(&ctx, second));
    assert_eq!(strategy.compute_chunk(&mut ctx), Ok(()));
    assert_eq!(ctx.forwarded().len(), 0);
    assert_eq!(ctx.gas_burnt(), 0);
    assert_eq!(ctx.incoming_transactions().len(), 2);
    assert_eq!(ctx.incoming_transactions()[0], second);
    assert_eq!(ctx.incoming_transactions()[1], third);
}

#[test]
fn exactly_one_half_is_no_filter_stop() {
    let (strategy, queues) = three_shards();
    let mut ctx = ChunkExecutionContext::new(0, queues);
    ctx.set_prev_block_info(1, info(ratio(0, 1), ratio(1, 2)));
    let tx = ctx.submit_transaction(transaction_to(1, 0));
    assert!(!strategy.get_filter_stop(&ctx, tx));
}

#[test]
fn partial_drain_stops_at_the_first_receipt_that_does_not_fit() {
    let (mut strategy, mut queues) = three_shards();
    let to_one = strategy.outgoing_queues[&1];
    queues.push_back(to_one, receipt(0, 1, 5 * PGAS));
    queues.push_back(to_one, receipt(1, 1, 20 * PGAS));
    queues.push_back(to_one, receipt(2, 1, 3 * PGAS));
    let mut ctx = ChunkExecutionContext::new(0, queues);
    ctx.set_prev_block_info(1, info(ratio(1, 2), ratio(0, 1)));
    assert_eq!(strategy.init_send_limit(&ctx), Ok(()));
    assert_eq!(strategy.outgoing_gas_limit[&1], 15 * PGAS);
    assert_eq!(strategy.process_outgoing_receipts(&mut ctx), Ok(()));
    assert_eq!(ctx.forwarded(), &vec![receipt(0, 1, 5 * PGAS)]);
    assert_eq!(ctx.queue(to_one).len(), 2);
    assert_eq!(ctx.queue(to_one).front(), Some(receipt(1, 1, 20 * PGAS)));
    assert_eq!(ctx.queue(to_one).attached_gas(), 23 * PGAS as u128);
    assert_eq!(strategy.outgoing_gas_limit[&1], 10 * PGAS);
    assert_eq!(strategy.outgoing_gas_limit[&2], 30 * PGAS);
}

#[test]
fn execution_produces_local_and_cross_shard_receipts() {
    let (mut strategy, queues) = three_shards();
    let mut ctx = ChunkExecutionContext::new(0, queues);
    ctx.deliver_receipt(receipt(1, 0, TGAS));
    ctx.set_produced(1, vec![receipt(2, 0, 40 * PGAS), receipt(3, 2, 2 * PGAS)]);
    assert_eq!(strategy.compute_chunk(&mut ctx), Ok(()));
    // The local receipt carries more gas than any send limit and is sent on all the same.
    assert_eq!(ctx.forwarded(), &vec![receipt(2, 0, 40 * PGAS), receipt(3, 2, 2 * PGAS)]);
    assert_eq!(strategy.outgoing_gas_limit[&2], 28 * PGAS);
    assert_eq!(strategy.outgoing_gas_limit[&1], 30 * PGAS);
    assert_eq!(ctx.queue(strategy.outgoing_queues[&1]).len(), 0);
    assert_eq!(ctx.queue(strategy.outgoing_queues[&2]).len(), 0);
}

#[test]
fn sent_gas_never_exceeds_the_send_limit() {
    let (mut strategy, mut queues) = three_shards();
    let to_two = strategy.outgoing_queues[&2];
    queues.push_back(to_two, receipt(0, 2, 4 * PGAS));
    let mut ctx = ChunkExecutionContext::new(0, queues);
    // A third of the way to full congestion: 20 PGas may be sent to shard 2.
    ctx.set_prev_block_info(2, info(ratio(1, 3), ratio(0, 1)));
    for id in 1..4 {
        ctx.submit_transaction(Transaction {
            receiver: 2,
            conversion_gas: TGAS,
            receipts: vec![receipt(id, 2, 6 * PGAS)],
        });
    }
    ctx.deliver_receipt(receipt(10, 0, TGAS));
    ctx.set_produced(10, vec![receipt(11, 2, 5 * PGAS), receipt(12, 2, 1 * PGAS)]);
    assert_eq!(strategy.compute_chunk(&mut ctx), Ok(()));
    let sent = gas_to(ctx.forwarded(), 2);
    assert_eq!(sent, 4 * PGAS + 6 * PGAS + 6 * PGAS + 1 * PGAS);
    assert_eq!(sent + strategy.outgoing_gas_limit[&2], 20 * PGAS);
    assert!(sent <= 20 * PGAS);
    // What did not fit waits, in the order in which it was produced.
    assert_eq!(ctx.queue(to_two).len(), 2);
    assert_eq!(ctx.queue(to_two).front(), Some(receipt(3, 2, 6 * PGAS)));
    assert_eq!(gas_to(ctx.forwarded(), 1), 0);
}

#[test]
fn local_receipts_never_reach_a_buffer() {
    let (mut strategy, queues) = three_shards();
    let mut ctx = ChunkExecutionContext::new(0, queues);
    ctx.set_prev_block_info(1, info(ratio(1, 1), ratio(0, 1)));
    ctx.set_prev_block_info(2, info(ratio(1, 1), ratio(0, 1)));
    ctx.submit_transaction(Transaction {
        receiver: 0,
        conversion_gas: TGAS,
        receipts: vec![receipt(1, 0, 9 * PGAS), receipt(2, 1, 1), receipt(3, 0, 1)],
    });
    assert_eq!(strategy.compute_chunk(&mut ctx), Ok(()));
    assert_eq!(ctx.forwarded(), &vec![receipt(1, 0, 9 * PGAS), receipt(3, 0, 1)]);
    let to_one = strategy.outgoing_queues[&1];
    let to_two = strategy.outgoing_queues[&2];
    assert_eq!(ctx.queue(to_one).len(), 1);
    assert_eq!(ctx.queue(to_one).front(), Some(receipt(2, 1, 1)));
    assert_eq!(ctx.queue(to_two).len(), 0);
}

#[test]
fn empty_previous_block_gives_every_peer_the_full_limit() {
    let (mut strategy, queues) = three_shards();
    let ctx = ChunkExecutionContext::new(0, queues);
    assert_eq!(strategy.init_send_limit(&ctx), Ok(()));
    assert_eq!(strategy.outgoing_gas_limit.len(), 2);
    assert_eq!(strategy.outgoing_gas_limit[&1], 30 * PGAS);
    assert_eq!(strategy.outgoing_gas_limit[&2], 30 * PGAS);
    assert_eq!(MAX_SEND_LIMIT, 30_000_000);
}

#[test]
fn limits_do_not_roll_over() {
    let (mut strategy, queues) = three_shards();
    let mut ctx = ChunkExecutionContext::new(0, queues);
    ctx.submit_transaction(transaction_to(1, 0));
    assert_eq!(strategy.compute_chunk(&mut ctx), Ok(()));
    assert_eq!(strategy.outgoing_gas_limit[&1], 30 * PGAS - 10 * TGAS);
    let queues = ctx.into_queues();
    let mut next = ChunkExecutionContext::new(0, queues);
    next.set_prev_block_info(1, info(ratio(1, 10), ratio(0, 1)));
    assert_eq!(strategy.compute_chunk(&mut next), Ok(()));
    assert_eq!(strategy.outgoing_gas_limit[&1], 27 * PGAS);
}

#[test]
fn buffered_receipts_leave_in_the_next_chunk() {
    let (mut strategy, queues) = three_shards();
    let mut ctx = ChunkExecutionContext::new(0, queues);
    ctx.set_prev_block_info(1, info(ratio(1, 1), ratio(0, 1)));
    ctx.submit_transaction(transaction_to(1, 0));
    ctx.submit_transaction(transaction_to(1, 1));
    assert_eq!(strategy.compute_chunk(&mut ctx), Ok(()));
    assert_eq!(ctx.forwarded().len(), 0);
    let mut next = ChunkExecutionContext::new(0, ctx.into_queues());
    assert_eq!(strategy.compute_chunk(&mut next), Ok(()));
    assert_eq!(next.forwarded(), &vec![receipt(0, 1, 10 * TGAS), receipt(1, 1, 10 * TGAS)]);
    assert_eq!(next.queue(strategy.outgoing_queues[&1]).len(), 0);
    assert_eq!(next.current_block_info()[&0].outgoing_congestion.num, 0);
}

#[test]
fn publication_does_not_change_the_decisions_of_the_same_chunk() {
    let (mut strategy, queues) = three_shards();
    let mut ctx = ChunkExecutionContext::new(0, queues);
    // Full congestion published in the current block is not read in this chunk.
    ctx.publish(1, info(ratio(1, 1), ratio(1, 1)));
    ctx.submit_transaction(transaction_to(1, 0));
    assert_eq!(strategy.compute_chunk(&mut ctx), Ok(()));
    assert_eq!(ctx.forwarded(), &vec![receipt(0, 1, 10 * TGAS)]);
    assert_eq!(ctx.current_block_info()[&1], info(ratio(1, 1), ratio(1, 1)));
}

#[test]
fn admission_stops_at_the_transaction_limit() {
    let (mut strategy, queues) = three_shards();
    let mut ctx = ChunkExecutionContext::new(0, queues);
    for id in 0..5 {
        ctx.submit_transaction(Transaction {
            receiver: 1,
            conversion_gas: 200 * TGAS,
            receipts: vec![receipt(id, 1, TGAS)],
        });
    }
    assert_eq!(strategy.init_send_limit(&ctx), Ok(()));
    assert_eq!(strategy.process_new_transactions(&mut ctx), Ok(()));
    // 500 TGas may be burnt: the third transaction is the last to start under it.
    assert_eq!(ctx.gas_burnt(), 600 * TGAS);
    assert_eq!(ctx.forwarded().len(), 3);
    assert_eq!(ctx.incoming_transactions().len(), 2);
}

#[test]
fn own_congestion_lowers_the_transaction_limit() {
    let (mut strategy, queues) = three_shards();
    let mut ctx = ChunkExecutionContext::new(0, queues);
    // 50 PGas wait: half congested, so 252.5 TGas may be burnt on transactions.
    ctx.deliver_receipt(receipt(100, 0, 50 * PGAS));
    assert_eq!(strategy.get_incoming_congestion(&ctx), ratio(50 * PGAS, 100 * PGAS));
    for id in 0..5 {
        ctx.submit_transaction(Transaction {
            receiver: 1,
            conversion_gas: 126_250,
            receipts: vec![receipt(id, 1, TGAS)],
        });
    }
    assert_eq!(strategy.init_send_limit(&ctx), Ok(()));
    assert_eq!(strategy.process_new_transactions(&mut ctx), Ok(()));
    assert_eq!(ctx.gas_burnt(), 252_500);
    assert_eq!(ctx.forwarded().len(), 2);
}

#[test]
fn execution_stops_at_the_gas_limit() {
    let (mut strategy, queues) = three_shards();
    let mut ctx = ChunkExecutionContext::new(0, queues);
    for id in 0..4 {
        ctx.deliver_receipt(Receipt {
            id,
            receiver: 0,
            size: 1,
            attached_gas: 0,
            execution_gas: 400 * TGAS,
        });
    }
    assert_eq!(strategy.compute_chunk(&mut ctx), Ok(()));
    assert_eq!(GAS_LIMIT, 1_000_000);
    assert_eq!(ctx.gas_burnt(), 1_200 * TGAS);
    assert_eq!(ctx.incoming_receipts().len(), 1);
    assert_eq!(ctx.incoming_receipts().front().map(|r| r.id), Some(3));
}

#[test]
fn receipts_are_executed_even_when_transactions_used_their_limit() {
    let (mut strategy, queues) = three_shards();
    let mut ctx = ChunkExecutionContext::new(0, queues);
    ctx.submit_transaction(Transaction {
        receiver: 1,
        conversion_gas: 600 * TGAS,
        receipts: vec![],
    });
    ctx.submit_transaction(transaction_to(1, 1));
    ctx.deliver_receipt(receipt(5, 0, 0));
    assert_eq!(strategy.compute_chunk(&mut ctx), Ok(()));
    assert_eq!(ctx.incoming_transactions().len(), 1);
    assert_eq!(ctx.incoming_receipts().len(), 0);
    assert_eq!(ctx.gas_burnt(), 601 * TGAS);
}

#[test]
fn published_congestion_is_clamped_to_one() {
    let (mut strategy, mut queues) = three_shards();
    let to_one = strategy.outgoing_queues[&1];
    let to_two = strategy.outgoing_queues[&2];
    queues.push_back(to_one, receipt(0, 1, 80 * PGAS));
    queues.push_back(to_two, receipt(1, 2, 80 * PGAS));
    let mut ctx = ChunkExecutionContext::new(0, queues);
    ctx.set_prev_block_info(1, info(ratio(1, 1), ratio(0, 1)));
    ctx.set_prev_block_info(2, info(ratio(1, 1), ratio(0, 1)));
    ctx.deliver_receipt(Receipt {
        id: 7,
        receiver: 0,
        size: 1,
        attached_gas: 300 * PGAS,
        execution_gas: 2 * GAS_LIMIT,
    });
    ctx.deliver_receipt(receipt(8, 0, 300 * PGAS));
    assert_eq!(strategy.compute_chunk(&mut ctx), Ok(()));
    let published = ctx.current_block_info()[&0];
    assert_eq!(published.incoming_congestion, ratio(100 * PGAS, 100 * PGAS));
    assert_eq!(published.outgoing_congestion, ratio(100 * PGAS, 100 * PGAS));
    assert!(published.incoming_congestion.is_in_unit_interval());
    assert!(published.outgoing_congestion.is_in_unit_interval());
}

#[test]
fn memory_congestion_counts_bytes() {
    let (strategy, mut queues) = three_shards();
    let to_one = strategy.outgoing_queues[&1];
    let to_two = strategy.outgoing_queues[&2];
    queues.push_back(
        to_one,
        Receipt { id: 0, receiver: 1, size: 100_000_000, attached_gas: PGAS, execution_gas: 0 },
    );
    queues.push_back(
        to_two,
        Receipt { id: 1, receiver: 2, size: 150_000_000, attached_gas: PGAS, execution_gas: 0 },
    );
    let ctx = ChunkExecutionContext::new(0, queues);
    assert_eq!(strategy.get_memory_congestion(&ctx), ratio(250_000_000, 500_000_000));
    assert_eq!(strategy.get_gas_congestion(&ctx), ratio(2 * PGAS, 100 * PGAS));
    assert_eq!(strategy.get_outgoing_congestion(&ctx), ratio(250_000_000, 500_000_000));
}

#[test]
fn publishing_twice_publishes_the_same() {
    let (mut strategy, mut queues) = three_shards();
    queues.push_back(strategy.outgoing_queues[&1], receipt(0, 1, 7 * PGAS));
    let mut ctx = ChunkExecutionContext::new(0, queues);
    ctx.deliver_receipt(receipt(1, 0, 3 * PGAS));
    assert_eq!(strategy.update_block_info(&mut ctx), Ok(()));
    let once = ctx.current_block_info().clone();
    assert_eq!(strategy.update_block_info(&mut ctx), Ok(()));
    assert_eq!(ctx.current_block_info(), &once);
    assert_eq!(once[&0], info(ratio(3 * PGAS, 100 * PGAS), ratio(7 * PGAS, 100 * PGAS)));
    assert_eq!(once.len(), 1);
}

#[test]
fn unknown_shard_is_an_error() {
    let (mut strategy, queues) = three_shards();
    let mut ctx = ChunkExecutionContext::new(0, queues);
    assert_eq!(strategy.init_send_limit(&ctx), Ok(()));
    assert_eq!(
        strategy.forward_or_buffer(&mut ctx, receipt(0, 9, TGAS)),
        Err(StrategyError::UnknownShard(9))
    );
    assert_eq!(ctx.forwarded().len(), 0);
    ctx.deliver_receipt(receipt(1, 0, TGAS));
    ctx.set_produced(1, vec![receipt(2, 1, TGAS), receipt(3, 7, TGAS), receipt(4, 1, TGAS)]);
    assert_eq!(strategy.compute_chunk(&mut ctx), Err(StrategyError::UnknownShard(7)));
    // What came before the receipt that failed was sent on, what came after was not.
    assert_eq!(ctx.forwarded(), &vec![receipt(2, 1, TGAS)]);
    assert_eq!(ctx.current_block_info().len(), 0);
}

#[test]
fn missing_send_limit_is_an_error() {
    let (mut strategy, queues) = three_shards();
    let mut ctx = ChunkExecutionContext::new(0, queues);
    assert_eq!(
        strategy.forward_or_buffer(&mut ctx, receipt(0, 1, TGAS)),
        Err(StrategyError::MissingSendLimit(1))
    );
    assert_eq!(
        strategy.process_outgoing_receipts(&mut ctx),
        Err(StrategyError::MissingSendLimit(1))
    );
    // A receipt to the own shard needs no limit.
    assert_eq!(strategy.forward_or_buffer(&mut ctx, receipt(1, 0, TGAS)), Ok(()));
    assert_eq!(ctx.forwarded(), &vec![receipt(1, 0, TGAS)]);
}

#[test]
fn invalid_congestion_is_an_error() {
    let (mut strategy, queues) = three_shards();
    let mut ctx = ChunkExecutionContext::new(0, queues);
    ctx.set_prev_block_info(2, info(ratio(3, 2), ratio(0, 1)));
    ctx.submit_transaction(transaction_to(1, 0));
    assert_eq!(
        strategy.compute_chunk(&mut ctx),
        Err(StrategyError::InvalidCongestion(ratio(3, 2)))
    );
    assert_eq!(ctx.forwarded().len(), 0);
    assert_eq!(ctx.incoming_transactions().len(), 1);
    // The peer before the offending one has its limit, the offending one has none.
    assert_eq!(strategy.outgoing_gas_limit.get(&1), Some(&(30 * PGAS)));
    assert_eq!(strategy.outgoing_gas_limit.get(&2), None);
}

#[test]
fn uninitialized_strategy_is_an_error() {
    let mut strategy = NepStrategy::new();
    let mut ctx = ChunkExecutionContext::new(0, QueueBundle::new());
    assert_eq!(strategy.shard_id(), Err(StrategyError::UninitializedStrategy));
    assert_eq!(strategy.compute_chunk(&mut ctx), Err(StrategyError::UninitializedStrategy));
    assert_eq!(
        strategy.forward_or_buffer(&mut ctx, receipt(0, 0, 1)),
        Err(StrategyError::UninitializedStrategy)
    );
    assert_eq!(strategy.update_block_info(&mut ctx), Err(StrategyError::UninitializedStrategy));
    assert_eq!(ctx.current_block_info().len(), 0);
}

#[test]
fn peers_are_visited_in_ascending_order_whatever_order_they_were_given_in() {
    let mut queues = QueueBundle::new();
    let mut strategy = NepStrategy::new();
    strategy.init(0, &[0, 2, 1], &mut queues);
    queues.push_back(strategy.outgoing_queues[&2], receipt(0, 2, PGAS));
    queues.push_back(strategy.outgoing_queues[&1], receipt(1, 1, PGAS));
    let mut ctx = ChunkExecutionContext::new(0, queues);
    assert_eq!(strategy.compute_chunk(&mut ctx), Ok(()));
    // The buffer for shard 1 is drained before the buffer for shard 2.
    assert_eq!(ctx.forwarded(), &vec![receipt(1, 1, PGAS), receipt(0, 2, PGAS)]);
    let mut next = ChunkExecutionContext::new(0, ctx.into_queues());
    next.set_prev_block_info(2, info(ratio(5, 4), ratio(0, 1)));
    next.set_prev_block_info(1, info(ratio(3, 2), ratio(0, 1)));
    // Of two levels that cannot be turned into limits, that of shard 1 is met first.
    assert_eq!(
        strategy.compute_chunk(&mut next),
        Err(StrategyError::InvalidCongestion(ratio(3, 2)))
    );
}

#[test]
fn admission_keeps_the_sum_of_sent_and_left_whatever_the_buffers_hold() {
    let (mut strategy, mut queues) = three_shards();
    // A receipt for shard 2 waits in the buffer for shard 1.
    queues.push_back(strategy.outgoing_queues[&1], receipt(9, 2, PGAS));
    let mut ctx = ChunkExecutionContext::new(0, queues);
    ctx.set_prev_block_info(1, info(ratio(999, 1000), ratio(0, 1)));
    assert_eq!(strategy.init_send_limit(&ctx), Ok(()));
    assert_eq!(strategy.outgoing_gas_limit[&1], 30 * TGAS);
    for id in 0..4 {
        ctx.submit_transaction(transaction_to(1, id));
    }
    assert_eq!(strategy.process_new_transactions(&mut ctx), Ok(()));
    // Three receipts of 10 TGas fit into 30 TGas, the fourth is kept back behind what waited.
    assert_eq!(gas_to(ctx.forwarded(), 1), 30 * TGAS);
    assert_eq!(gas_to(ctx.forwarded(), 1) + strategy.outgoing_gas_limit[&1], 30 * TGAS);
    assert_eq!(gas_to(ctx.forwarded(), 2) + strategy.outgoing_gas_limit[&2], 30 * PGAS);
    let to_one = strategy.outgoing_queues[&1];
    assert_eq!(ctx.queue(to_one).len(), 2);
    assert_eq!(ctx.queue(to_one).front(), Some(receipt(9, 2, PGAS)));
}

#[test]
fn produced_receipts_to_the_own_shard_are_handed_over_in_their_order() {
    let (mut strategy, mut queues) = three_shards();
    queues.push_back(strategy.outgoing_queues[&2], receipt(50, 2, TGAS));
    let mut ctx = ChunkExecutionContext::new(0, queues);
    ctx.submit_transaction(Transaction {
        receiver: 0,
        conversion_gas: TGAS,
        receipts: vec![receipt(1, 0, 1), receipt(2, 1, 1), receipt(3, 0, 1)],
    });
    ctx.deliver_receipt(receipt(10, 0, TGAS));
    ctx.set_produced(10, vec![receipt(11, 2, 1), receipt(12, 0, 1)]);
    assert_eq!(strategy.compute_chunk(&mut ctx), Ok(()));
    let local: Vec<u64> =
        ctx.forwarded().iter().filter(|r| r.receiver == 0).map(|r| r.id).collect();
    assert_eq!(local, vec![1, 3, 12]);
    let all: Vec<u64> = ctx.forwarded().iter().map(|r| r.id).collect();
    assert_eq!(all, vec![50, 1, 2, 3, 11, 12]);
}

use congestion_model::block_cache::cache_is_full;
use congestion_model::block_cache::CACHE_CAPACITY;
use congestion_model::strategy::nep::decimal_string;
use congestion_model::strategy::nep::mix;
use congestion_model::strategy::nep::queue_name_for;
use congestion_model::ChunkExecutionContext;
use congestion_model::CongestedShardsInfo;
use congestion_model::NepStrategy;
use congestion_model::Queue;
use congestion_model::QueueBundle;
use congestion_model::Ratio;
use congestion_model::Receipt;
use congestion_model::StrategyError;
use congestion_model::Transaction;
use congestion_model::PGAS;
use congestion_model::TGAS;

fn ratio(num: u64, den: u64) -> Ratio {
    Ratio { num, den }
}

fn plain(id: u64, receiver: u64, size: u64, attached_gas: u64) -> Receipt {
    Receipt { id, receiver, size, attached_gas, execution_gas: 0 }
}

#[test]
fn mix_blends_linearly() {
    assert_eq!(mix(30 * PGAS, 0, ratio(1, 2)), Ok(15 * PGAS));
    assert_eq!(mix(30 * PGAS, 0, ratio(0, 1)), Ok(30 * PGAS));
    assert_eq!(mix(30 * PGAS, 0, ratio(1, 1)), Ok(0));
    assert_eq!(mix(500 * TGAS, 5 * TGAS, ratio(0, 7)), Ok(500 * TGAS));
    assert_eq!(mix(500 * TGAS, 5 * TGAS, ratio(7, 7)), Ok(5 * TGAS));
    assert_eq!(mix(500 * TGAS, 5 * TGAS, ratio(1, 3)), Ok(335_000));
    assert_eq!(mix(0, 100, ratio(1, 4)), Ok(25));
}

#[test]
fn mix_rounds_to_the_nearest() {
    // 0.75 rounds up, 0.25 rounds down.
    assert_eq!(mix(0, 3, ratio(1, 4)), Ok(1));
    assert_eq!(mix(0, 1, ratio(1, 4)), Ok(0));
    // 6.67 rounds up, 3.33 rounds down.
    assert_eq!(mix(10, 0, ratio(1, 3)), Ok(7));
    assert_eq!(mix(0, 10, ratio(2, 3)), Ok(7));
    assert_eq!(mix(0, 10, ratio(1, 3)), Ok(3));
    // A half rounds up.
    assert_eq!(mix(1, 0, ratio(1, 2)), Ok(1));
    assert_eq!(mix(0, 5, ratio(1, 2)), Ok(3));
    assert_eq!(mix(u64::MAX, u64::MAX - 1, ratio(1, 2)), Ok(u64::MAX));
}

#[test]
fn mix_takes_the_largest_numbers() {
    assert_eq!(mix(u64::MAX, u64::MAX, ratio(u64::MAX - 1, u64::MAX)), Ok(u64::MAX));
    assert_eq!(mix(u64::MAX, 0, ratio(0, u64::MAX)), Ok(u64::MAX));
    assert_eq!(mix(0, u64::MAX, ratio(u64::MAX, u64::MAX)), Ok(u64::MAX));
}

#[test]
fn mix_refuses_levels_outside_the_unit_interval() {
    assert_eq!(mix(10, 0, ratio(3, 2)), Err(StrategyError::InvalidCongestion(ratio(3, 2))));
    assert_eq!(mix(10, 0, ratio(0, 0)), Err(StrategyError::InvalidCongestion(ratio(0, 0))));
    assert_eq!(mix(10, 0, ratio(1, 0)), Err(StrategyError::InvalidCongestion(ratio(1, 0))));
}

#[test]
fn ratio_comparisons() {
    assert!(ratio(91, 100).exceeds(ratio(9, 10)));
    assert!(!ratio(9, 10).exceeds(ratio(9, 10)));
    assert!(!ratio(90, 100).exceeds(ratio(9, 10)));
    assert!(ratio(2, 1).exceeds(ratio(9, 10)));
    assert!(ratio(1, 0).exceeds(ratio(9, 10)));
    assert!(!ratio(0, 0).exceeds(ratio(9, 10)));
    assert!(ratio(u64::MAX, u64::MAX).exceeds(ratio(u64::MAX - 1, u64::MAX)));
    assert!(ratio(1, 2).is_in_unit_interval());
    assert!(ratio(0, 1).is_in_unit_interval());
    assert!(ratio(5, 5).is_in_unit_interval());
    assert!(!ratio(6, 5).is_in_unit_interval());
    assert!(!ratio(0, 0).is_in_unit_interval());
    assert_eq!(Ratio::zero(), ratio(0, 1));
}

#[test]
fn ratio_clamps_and_picks_the_larger() {
    assert_eq!(Ratio::clamped(30, 100), ratio(30, 100));
    assert_eq!(Ratio::clamped(100, 100), ratio(100, 100));
    assert_eq!(Ratio::clamped(u128::MAX, 100), ratio(100, 100));
    assert_eq!(Ratio::clamped(0, 100), ratio(0, 100));
    assert_eq!(ratio(1, 2).max(ratio(2, 3)), ratio(2, 3));
    assert_eq!(ratio(2, 3).max(ratio(1, 2)), ratio(2, 3));
    // Worth the same: the first stays.
    assert_eq!(ratio(1, 2).max(ratio(2, 4)), ratio(1, 2));
}

#[test]
fn default_info_is_no_congestion() {
    let info = CongestedShardsInfo::default();
    assert_eq!(info.incoming_congestion, ratio(0, 1));
    assert_eq!(info.outgoing_congestion, ratio(0, 1));
}

#[test]
fn queue_is_first_in_first_out_and_keeps_its_sums() {
    let mut queue = Queue::new();
    assert_eq!(queue.len(), 0);
    assert_eq!(queue.front(), None);
    assert_eq!(queue.pop_front(), None);
    queue.push_back(plain(1, 1, 10, 100));
    queue.push_back(plain(2, 1, 20, 200));
    queue.push_back(plain(3, 1, 30, 300));
    assert_eq!(queue.len(), 3);
    assert_eq!(queue.size(), 60);
    assert_eq!(queue.attached_gas(), 600);
    assert_eq!(queue.front(), Some(plain(1, 1, 10, 100)));
    assert_eq!(queue.pop_front(), Some(plain(1, 1, 10, 100)));
    assert_eq!(queue.size(), 50);
    assert_eq!(queue.attached_gas(), 500);
    assert_eq!(queue.pop_front(), Some(plain(2, 1, 20, 200)));
    assert_eq!(queue.pop_front(), Some(plain(3, 1, 30, 300)));
    assert_eq!(queue.pop_front(), None);
    assert_eq!(queue.size(), 0);
    assert_eq!(queue.attached_gas(), 0);
}

#[test]
fn queue_sums_do_not_overflow() {
    let mut queue = Queue::new();
    queue.push_back(plain(1, 1, u64::MAX, u64::MAX));
    queue.push_back(plain(2, 1, u64::MAX, u64::MAX));
    assert_eq!(queue.size(), 2 * (u64::MAX as u128));
    assert_eq!(queue.attached_gas(), 2 * (u64::MAX as u128));
}

#[test]
fn bundle_hands_out_consecutive_handles() {
    let mut queues = QueueBundle::new();
    assert_eq!(queues.len(), 0);
    let first = queues.register_queue(4, String::from("a"));
    let second = queues.register_queue(5, String::from("b"));
    assert_eq!((first, second), (0, 1));
    assert_eq!(queues.len(), 2);
    assert_eq!(queues.owner(first), 4);
    assert_eq!(queues.owner(second), 5);
    assert_eq!(queues.name(second), "b");
    queues.push_back(second, plain(1, 1, 1, 1));
    assert_eq!(queues.queue(first).len(), 0);
    assert_eq!(queues.queue(second).len(), 1);
    assert_eq!(queues.pop_front(first), None);
    assert_eq!(queues.pop_front(second), Some(plain(1, 1, 1, 1)));
}

#[test]
fn decimal_strings() {
    assert_eq!(decimal_string(0), "0");
    assert_eq!(decimal_string(7), "7");
    assert_eq!(decimal_string(10), "10");
    assert_eq!(decimal_string(1234567890), "1234567890");
    assert_eq!(decimal_string(u64::MAX), "18446744073709551615");
    assert_eq!(queue_name_for(0), "outgoing_receipts_0");
    assert_eq!(queue_name_for(12), "outgoing_receipts_12");
}

#[test]
fn init_registers_one_named_queue_per_peer() {
    let mut queues = QueueBundle::new();
    queues.register_queue(9, String::from("somebody else's"));
    let mut strategy = NepStrategy::new();
    strategy.init(2, &[0, 1, 2, 3], &mut queues);
    assert_eq!(strategy.shard_id(), Ok(2));
    assert_eq!(strategy.all_shards, vec![0, 1, 2, 3]);
    assert_eq!(strategy.other_shards, vec![0, 1, 3]);
    assert_eq!(strategy.outgoing_queues.keys().copied().collect::<Vec<u64>>(), vec![0, 1, 3]);
    assert!(strategy.outgoing_gas_limit.is_empty());
    assert_eq!(queues.len(), 4);
    for peer in [0u64, 1, 3] {
        let queue = strategy.outgoing_queues[&peer];
        assert_eq!(queues.name(queue), &format!("outgoing_receipts_{}", peer));
        assert_eq!(queues.owner(queue), 2);
        assert_eq!(queues.queue(queue).len(), 0);
    }
    assert_eq!(strategy.outgoing_queues[&0], 1);
    assert_eq!(strategy.outgoing_queues[&1], 2);
    assert_eq!(strategy.outgoing_queues[&3], 3);
    assert_eq!(queues.name(0), "somebody else's");
}

#[test]
fn init_keeps_the_given_order() {
    let mut queues = QueueBundle::new();
    let mut strategy = NepStrategy::new();
    strategy.init(0, &[0, 2, 1], &mut queues);
    assert_eq!(strategy.all_shards, vec![0, 2, 1]);
    assert_eq!(strategy.other_shards, vec![2, 1]);
    assert_eq!(queues.len(), 2);
    // The queue for shard 2 is registered first.
    assert_eq!(queues.name(0), "outgoing_receipts_2");
    assert_eq!(queues.name(1), "outgoing_receipts_1");
    assert_eq!(strategy.outgoing_queues[&2], 0);
    assert_eq!(strategy.outgoing_queues[&1], 1);
    assert_eq!(strategy.outgoing_queues.get(&0), None);
    // The steps of a chunk visit the peers in ascending order all the same.
    assert_eq!(strategy.peers_in_order(), vec![1, 2]);
}

#[test]
fn init_registers_a_queue_for_each_shard_given() {
    let mut queues = QueueBundle::new();
    let mut strategy = NepStrategy::new();
    strategy.init(5, &[7, 5, 3, 7, 11, 3], &mut queues);
    assert_eq!(strategy.all_shards, vec![7, 5, 3, 7, 11, 3]);
    assert_eq!(strategy.other_shards, vec![7, 3, 7, 11, 3]);
    assert_eq!(strategy.peers_in_order(), vec![3, 7, 11]);
    assert_eq!(queues.len(), 5);
    assert_eq!(queues.name(0), "outgoing_receipts_7");
    assert_eq!(queues.name(1), "outgoing_receipts_3");
    assert_eq!(queues.name(4), "outgoing_receipts_3");
    // A shard that is given again keeps the queue that was registered last.
    assert_eq!(strategy.outgoing_queues[&7], 2);
    assert_eq!(strategy.outgoing_queues[&11], 3);
    assert_eq!(strategy.outgoing_queues[&3], 4);
    assert_eq!(strategy.outgoing_queues.len(), 3);
    assert_eq!(strategy.outgoing_queues.get(&5), None);
}

#[test]
fn init_of_a_shard_without_peers() {
    let mut queues = QueueBundle::new();
    let mut strategy = NepStrategy::new();
    strategy.init(0, &[0], &mut queues);
    assert_eq!(strategy.other_shards, Vec::<u64>::new());
    assert_eq!(queues.len(), 0);
    let mut ctx = ChunkExecutionContext::new(0, queues);
    ctx.submit_transaction(Transaction {
        receiver: 0,
        conversion_gas: 1,
        receipts: vec![plain(1, 0, 1, 1)],
    });
    assert_eq!(strategy.compute_chunk(&mut ctx), Ok(()));
    assert_eq!(ctx.forwarded(), &vec![plain(1, 0, 1, 1)]);
}

#[test]
fn host_meters_and_stores() {
    let mut ctx = ChunkExecutionContext::new(3, QueueBundle::new());
    assert_eq!(ctx.shard(), 3);
    assert_eq!(ctx.queue_count(), 0);
    let tx = ctx.submit_transaction(Transaction {
        receiver: 1,
        conversion_gas: 5,
        receipts: vec![plain(1, 1, 1, 1), plain(2, 2, 2, 2)],
    });
    assert_eq!(ctx.tx_receiver(tx), 1);
    assert_eq!(ctx.pop_transaction(), Some(tx));
    assert_eq!(ctx.pop_transaction(), None);
    assert_eq!(ctx.accept_transaction(tx), vec![plain(1, 1, 1, 1), plain(2, 2, 2, 2)]);
    assert_eq!(ctx.gas_burnt(), 5);
    let executed = Receipt { id: 8, receiver: 3, size: 0, attached_gas: 0, execution_gas: 7 };
    assert_eq!(ctx.execute_receipt(executed), vec![]);
    assert_eq!(ctx.gas_burnt(), 12);
    ctx.set_produced(8, vec![plain(9, 1, 0, 0)]);
    assert_eq!(ctx.execute_receipt(executed), vec![plain(9, 1, 0, 0)]);
    assert_eq!(ctx.gas_burnt(), 19);
    ctx.deliver_receipt(executed);
    assert_eq!(ctx.pop_incoming_receipt(), Some(executed));
    assert_eq!(ctx.pop_incoming_receipt(), None);
    assert_eq!(ctx.prev_block_info().len(), 0);
}

#[test]
fn gas_meter_stops_at_the_largest_number() {
    let mut ctx = ChunkExecutionContext::new(0, QueueBundle::new());
    let heavy = Receipt { id: 1, receiver: 0, size: 0, attached_gas: 0, execution_gas: u64::MAX };
    ctx.execute_receipt(heavy);
    ctx.execute_receipt(heavy);
    assert_eq!(ctx.gas_burnt(), u64::MAX);
}

#[test]
fn get_info_defaults_to_no_congestion() {
    let strategy = NepStrategy::new();
    let mut ctx = ChunkExecutionContext::new(0, QueueBundle::new());
    let published = CongestedShardsInfo {
        incoming_congestion: ratio(1, 4),
        outgoing_congestion: ratio(3, 4),
    };
    ctx.set_prev_block_info(1, published);
    assert_eq!(strategy.get_info(&ctx, 1), published);
    assert_eq!(strategy.get_info(&ctx, 2), CongestedShardsInfo::default());
}

#[test]
fn default_strategy_is_not_initialized() {
    let strategy = NepStrategy::default();
    assert_eq!(strategy.shard_id, None);
    assert!(strategy.all_shards.is_empty());
    assert!(strategy.other_shards.is_empty());
    assert!(strategy.outgoing_queues.is_empty());
    assert!(strategy.outgoing_gas_limit.is_empty());
    assert_eq!(strategy.shard_id(), Err(StrategyError::UninitializedStrategy));
}

#[test]
fn block_cache_is_full_from_ten_thousand_blocks_on() {
    assert_eq!(CACHE_CAPACITY, 10_000);
    assert!(!cache_is_full(0));
    assert!(!cache_is_full(9_999));
    assert!(cache_is_full(10_000));
    assert!(cache_is_full(usize::MAX));
}

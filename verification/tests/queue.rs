use tilegraph::data_structures::queue::{
    whole_bits, Cost, MinPriorityItem, MinPriorityQueue, Queue, COST_LIMIT,
};
use tilegraph::error::Error;

fn drain(queue: &mut MinPriorityQueue<u32>) -> Vec<u32> {
    let mut out = Vec::new();
    while let Some(item) = queue.pop() {
        out.push(item);
    }
    out
}

#[test]
fn fifo_hands_items_out_in_the_order_they_came() {
    let mut queue: Queue<u32> = Queue::new(4);
    assert_eq!(queue.len(), 0);
    queue.push(1);
    queue.push(2);
    queue.push(3);
    assert_eq!(queue.len(), 3);
    assert_eq!(queue.iter().to_vec(), vec![1, 2, 3]);
    assert_eq!(queue.pop(), Ok(1));
    assert_eq!(queue.pop(), Ok(2));
    assert_eq!(queue.pop(), Ok(3));
    assert_eq!(queue.len(), 0);
}

#[test]
fn queues_tell_their_capacity() {
    let queue: Queue<u32> = Queue::new(7);
    assert_eq!(queue.max_size(), 7);
    let queue: MinPriorityQueue<u32> = MinPriorityQueue::new(9);
    assert_eq!(queue.max_size(), 9);
    let queue: MinPriorityQueue<u32> = MinPriorityQueue::new(0);
    assert_eq!(queue.max_size(), 0);
}

#[test]
fn fifo_drops_the_oldest_item_when_full() {
    let mut queue: Queue<u32> = Queue::new(2);
    assert_eq!(queue.max_size, 2);
    queue.push(1);
    queue.push(2);
    queue.push(3);
    assert_eq!(queue.len(), 2);
    assert_eq!(queue.iter().to_vec(), vec![2, 3]);
    queue.push(4);
    assert_eq!(queue.iter().to_vec(), vec![3, 4]);
}

#[test]
fn fifo_pop_of_an_empty_queue_is_an_error() {
    let mut queue: Queue<u32> = Queue::new(2);
    assert_eq!(queue.pop(), Err(Error::EmptyQueue));
    queue.push(7);
    assert_eq!(queue.pop(), Ok(7));
    assert_eq!(queue.pop(), Err(Error::EmptyQueue));
}

#[test]
fn fifo_of_no_capacity_keeps_what_is_pushed_on_it_empty() {
    let mut queue: Queue<u32> = Queue::new(0);
    queue.push(1);
    assert_eq!(queue.len(), 1);
    assert_eq!(queue.pop(), Ok(1));
}

#[test]
fn cost_takes_a_double_apart() {
    assert_eq!(
        Cost::from_bits(1.0f64.to_bits()),
        Cost { mantissa: 4503599627370496, exponent: -52, sign: 1 }
    );
    assert_eq!(
        Cost::from_bits(2.5f64.to_bits()),
        Cost { mantissa: 5629499534213120, exponent: -51, sign: 1 }
    );
    assert_eq!(
        Cost::from_bits((-2.5f64).to_bits()),
        Cost { mantissa: 5629499534213120, exponent: -51, sign: -1 }
    );
    assert_eq!(
        Cost::from_bits(0.1f64.to_bits()),
        Cost { mantissa: 7205759403792794, exponent: -56, sign: 1 }
    );
    assert_eq!(Cost::from_bits(0), Cost { mantissa: 0, exponent: -1075, sign: 1 });
    assert_eq!(
        Cost::from_bits((-0.0f64).to_bits()),
        Cost { mantissa: 0, exponent: -1075, sign: -1 }
    );
}

#[test]
fn cost_of_a_subnormal_shares_the_scale_of_the_normals() {
    assert_eq!(Cost::from_bits(1), Cost { mantissa: 2, exponent: -1075, sign: 1 });
    let least_normal = Cost::from_bits(f64::MIN_POSITIVE.to_bits());
    assert_eq!(least_normal, Cost { mantissa: 1 << 52, exponent: -1074, sign: 1 });
    let greatest_subnormal = Cost::from_bits(f64::MIN_POSITIVE.to_bits() - 1);
    assert!(greatest_subnormal.precedes(&least_normal));
}

#[test]
fn cost_order_is_strict_and_total() {
    let values = [0.0f64, 5e-324, 0.1, 1.0, 2.5, 3.0, 4.0, 1024.0, 1e308];
    for i in 0..values.len() {
        for j in 0..values.len() {
            let a = Cost::from_bits(values[i].to_bits());
            let b = Cost::from_bits(values[j].to_bits());
            assert_eq!(a.precedes(&b), i < j);
            assert_eq!(a == b, i == j);
        }
    }
}

#[test]
fn negative_zero_comes_before_zero() {
    let negative = Cost::from_bits((-0.0f64).to_bits());
    let positive = Cost::from_bits(0.0f64.to_bits());
    assert!(negative.precedes(&positive));
    assert!(!positive.precedes(&negative));
    assert!(!positive.precedes(&positive));
    assert!(negative != positive);
}

#[test]
fn whole_bits_are_those_of_the_double() {
    let mantissa_full = 1u64 << 52;
    for n in [
        0u64,
        1,
        2,
        3,
        4,
        5,
        7,
        8,
        1023,
        1024,
        1025,
        123_456_789,
        mantissa_full - 1,
        mantissa_full,
        mantissa_full + 1,
        COST_LIMIT - 1,
        COST_LIMIT,
    ] {
        assert_eq!(whole_bits(n), (n as f64).to_bits());
    }
    assert_eq!(whole_bits(4), 0x4010_0000_0000_0000);
}

#[test]
fn priority_queue_pops_in_ascending_order_of_cost() {
    let mut queue: MinPriorityQueue<u32> = MinPriorityQueue::new(16);
    let costs = [5.0f64, 1.0, 3.5, 0.0, 2.0, 1e308, 0.25, 4.0];
    for (i, cost) in costs.iter().enumerate() {
        assert_eq!(queue.push(i as u32, cost.to_bits()), Ok(()));
    }
    assert_eq!(queue.len(), 8);
    assert_eq!(drain(&mut queue), vec![3, 6, 1, 4, 2, 7, 0, 5]);
    assert_eq!(queue.len(), 0);
}

#[test]
fn priority_queue_with_equal_costs_hands_out_every_item() {
    let mut queue: MinPriorityQueue<u32> = MinPriorityQueue::new(16);
    for i in 0..6u32 {
        assert_eq!(queue.push(i, 1.0f64.to_bits()), Ok(()));
    }
    assert_eq!(queue.push(9, 0.5f64.to_bits()), Ok(()));
    let mut out = drain(&mut queue);
    assert_eq!(out[0], 9);
    out.sort();
    assert_eq!(out, vec![0, 1, 2, 3, 4, 5, 9]);
}

#[test]
fn priority_queue_orders_negative_zero_before_zero() {
    let mut queue: MinPriorityQueue<u32> = MinPriorityQueue::new(4);
    assert_eq!(queue.push(1, 0.0f64.to_bits()), Ok(()));
    assert_eq!(queue.push(2, (-0.0f64).to_bits()), Ok(()));
    assert_eq!(queue.pop(), Some(2));
    assert_eq!(queue.pop(), Some(1));
}

#[test]
fn priority_queue_refuses_costs_that_are_not_finite() {
    let mut queue: MinPriorityQueue<u32> = MinPriorityQueue::new(4);
    assert_eq!(queue.push(1, 2.0f64.to_bits()), Ok(()));
    assert_eq!(queue.push(2, f64::NAN.to_bits()), Err(Error::NonFiniteCost));
    assert_eq!(queue.push(3, f64::INFINITY.to_bits()), Err(Error::NonFiniteCost));
    assert_eq!(queue.push(4, f64::NEG_INFINITY.to_bits()), Err(Error::NonFiniteCost));
    assert_eq!(queue.len(), 1);
    assert_eq!(queue.pop(), Some(1));
    assert_eq!(queue.pop(), None);
}

#[test]
fn priority_queue_pop_of_an_empty_queue_is_none() {
    let mut queue: MinPriorityQueue<u32> = MinPriorityQueue::new(4);
    assert_eq!(queue.pop(), None);
    assert_eq!(queue.len(), 0);
}

#[test]
fn priority_queue_loses_its_cheapest_entry_when_full() {
    let mut queue: MinPriorityQueue<u32> = MinPriorityQueue::new(3);
    assert_eq!(queue.push(1, 1.0f64.to_bits()), Ok(()));
    assert_eq!(queue.push(2, 2.0f64.to_bits()), Ok(()));
    assert_eq!(queue.push(3, 3.0f64.to_bits()), Ok(()));
    assert_eq!(queue.push(4, 4.0f64.to_bits()), Ok(()));
    assert_eq!(queue.len(), 3);
    assert_eq!(drain(&mut queue), vec![2, 3, 4]);
}

#[test]
fn priority_queue_of_no_capacity_loses_nothing() {
    let mut queue: MinPriorityQueue<u32> = MinPriorityQueue::new(0);
    for i in 0..20u32 {
        assert_eq!(queue.push(i, ((20 - i) as f64).to_bits()), Ok(()));
    }
    assert_eq!(queue.len(), 20);
    let out = drain(&mut queue);
    let expected: Vec<u32> = (0..20u32).rev().collect();
    assert_eq!(out, expected);
}

#[test]
fn priority_queue_shows_its_cheapest_entry_first() {
    let mut queue: MinPriorityQueue<u32> = MinPriorityQueue::new(8);
    for (i, cost) in [4.0f64, 2.0, 7.0, 1.0, 3.0].iter().enumerate() {
        assert_eq!(queue.push(i as u32, cost.to_bits()), Ok(()));
    }
    let entries = queue.iter();
    assert_eq!(entries.len(), 5);
    assert_eq!(
        entries[0],
        MinPriorityItem { item: 3, cost: Cost::from_bits(1.0f64.to_bits()) }
    );
    let mut items: Vec<u32> = entries.iter().map(|entry| entry.item).collect();
    items.sort();
    assert_eq!(items, vec![0, 1, 2, 3, 4]);
}

#[test]
fn priority_queue_orders_many_costs() {
    let mut queue: MinPriorityQueue<u32> = MinPriorityQueue::new(0);
    let mut seed: u64 = 12345;
    let mut costs: Vec<f64> = Vec::new();
    for i in 0..500u32 {
        seed = (seed * 31792125 + 9005) % 2684435399;
        let cost = (seed % 1000) as f64 / 8.0;
        costs.push(cost);
        assert_eq!(queue.push(i, cost.to_bits()), Ok(()));
    }
    let mut last = -1.0f64;
    let mut count = 0;
    while let Some(item) = queue.pop() {
        let cost = costs[item as usize];
        assert!(last <= cost);
        last = cost;
        count += 1;
    }
    assert_eq!(count, 500);
}

use kospi_parser::{DelayQueue, Timestamp};

fn at(secs: i64) -> Timestamp {
    Timestamp::from_secs_and_nanos(secs, 0)
}

#[test]
fn delay_queue_lets_out_the_earliest_once_three_seconds_pass() {
    let mut queue = DelayQueue::new();
    assert!(queue.earliest_time().is_none());
    assert!(queue.offer(at(10), at(10), 'a').is_none());
    assert!(queue.offer(at(11), at(11), 'b').is_none());
    assert_eq!(queue.earliest_time(), Some(at(10)));
    // Just under three seconds after the earliest: nothing comes out.
    assert!(queue.offer(Timestamp::from_secs_and_nanos(12, 999_999_999), at(12), 'c').is_none());
    // Three seconds after it: the earliest comes out before the new item goes in.
    assert_eq!(queue.offer(at(13), at(13), 'd'), Some((at(10), 'a')));
    assert_eq!(queue.pop(), Some((at(11), 'b')));
    assert_eq!(queue.pop(), Some((at(12), 'c')));
    assert_eq!(queue.pop(), Some((at(13), 'd')));
    assert_eq!(queue.pop(), None);
}

#[test]
fn delay_queue_orders_by_time_and_keeps_arrival_order_among_equal_times() {
    let mut queue = DelayQueue::new();
    assert!(queue.offer(at(0), at(5), 1).is_none());
    assert!(queue.offer(at(0), at(3), 2).is_none());
    assert!(queue.offer(at(0), at(5), 3).is_none());
    assert!(queue.offer(at(0), at(4), 4).is_none());
    assert!(queue.offer(at(0), at(5), 5).is_none());
    let mut out = Vec::new();
    while let Some((time, item)) = queue.pop() {
        out.push((time, item));
    }
    assert_eq!(out, vec![(at(3), 2), (at(4), 4), (at(5), 1), (at(5), 3), (at(5), 5)]);
}

#[test]
fn delay_queue_lets_out_only_one_item_per_offer() {
    let mut queue = DelayQueue::new();
    assert!(queue.offer(at(0), at(0), "x").is_none());
    assert!(queue.offer(at(0), at(1), "y").is_none());
    // Both held items are three seconds old, but one offer lets out one item.
    assert_eq!(queue.offer(at(10), at(10), "z"), Some((at(0), "x")));
    assert_eq!(queue.earliest_time(), Some(at(1)));
}

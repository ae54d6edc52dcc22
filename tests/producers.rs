use coop_async::producers::{interval_timeline, message_timeline};
use coop_async::timed::{merge, take, throttle, timeout, Elapsed, Timed};

#[test]
fn messages_alternate_short_and_long_pauses() {
    let s = message_timeline(10, u64::MAX);
    let times: Vec<u64> = s.items.iter().map(|t| t.at).collect();
    assert_eq!(times, vec![100, 400, 500, 800, 900, 1200, 1300, 1600, 1700, 2000]);
    let values: Vec<usize> = s.items.iter().map(|t| t.value).collect();
    assert_eq!(values, (0..10).collect::<Vec<usize>>());
    assert_eq!(s.end, 2000);
}

#[test]
fn message_producer_stops_at_first_failed_send() {
    let s = message_timeline(10, 450);
    assert_eq!(s.items, vec![Timed { at: 100, value: 0 }, Timed { at: 400, value: 1 }]);
    assert_eq!(s.end, 500);
    let s = message_timeline(0, 450);
    assert!(s.items.is_empty());
    assert_eq!(s.end, 0);
}

#[test]
fn intervals_count_one_per_millisecond_until_receiver_goes() {
    let s = interval_timeline(4);
    assert_eq!(
        s.items,
        vec![Timed { at: 1, value: 1 }, Timed { at: 2, value: 2 }, Timed { at: 3, value: 3 }]
    );
    assert_eq!(s.end, 4);
    let s = interval_timeline(0);
    assert!(s.items.is_empty());
    assert_eq!(s.end, 1);
}

#[test]
fn timed_out_messages_keep_every_item() {
    let r = timeout(message_timeline(10, u64::MAX), 200);
    let oks: Vec<usize> = r.items.iter().filter_map(|t| t.value.ok()).collect();
    assert_eq!(oks, (0..10).collect::<Vec<usize>>());
    let errs = r.items.iter().filter(|t| t.value == Err(Elapsed)).count();
    assert_eq!(errs, 5);
}

#[test]
fn throttled_intervals_keep_order_and_spacing() {
    let r = throttle(interval_timeline(1000), 100);
    assert_eq!(r.items.len(), 999);
    for k in 1..r.items.len() {
        assert!(r.items[k].at >= r.items[k - 1].at + 100);
        assert_eq!(r.items[k].value, k as u32 + 1);
    }
    let merged = take(merge(throttle(interval_timeline(1000), 100), interval_timeline(3)), 4);
    let values: Vec<u32> = merged.items.iter().map(|t| t.value).collect();
    assert_eq!(values, vec![1, 1, 2, 2]);
}

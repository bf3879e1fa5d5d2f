use audiovis::channel::SampleChannel;

#[test]
fn prefill_sets_occupancy_and_zeros() {
    let mut c = SampleChannel::new(8, 3);
    assert_eq!(c.len(), 3);
    assert_eq!(c.capacity(), 8);
    assert_eq!(c.dropped_count(), 0);
    let mut out: Vec<i32> = Vec::new();
    let n = c.drain_into(&mut out, 3);
    assert_eq!(n, 3);
    assert_eq!(out, vec![0, 0, 0]);
}

#[test]
fn produce_grows_occupancy_until_capacity() {
    let mut c = SampleChannel::new(4, 0);
    assert!(c.produce(1));
    assert!(c.produce(2));
    assert!(c.produce(3));
    assert!(c.produce(4));
    assert_eq!(c.len(), 4);
    // channel is full: the sample is dropped and counted
    assert!(!c.produce(5));
    assert_eq!(c.len(), 4);
    assert_eq!(c.dropped_count(), 1);
    assert!(!c.produce(6));
    assert_eq!(c.dropped_count(), 2);
}

#[test]
fn produce_batch_accepts_up_to_free_space() {
    let mut c = SampleChannel::new(4, 2);
    let batch = vec![10, 20, 30, 40];
    let accepted = c.produce_batch(&batch);
    assert_eq!(accepted, 2);
    assert_eq!(c.len(), 4);
    assert_eq!(c.dropped_count(), 2);
    let mut out: Vec<i32> = Vec::new();
    let n = c.drain_into(&mut out, 4);
    assert_eq!(n, 4);
    assert_eq!(out, vec![0, 0, 10, 20]);
}

#[test]
fn drain_returns_fifo_order() {
    let mut c = SampleChannel::new(4, 0);
    c.produce(1);
    c.produce(2);
    c.produce(3);
    let mut out: Vec<i32> = Vec::new();
    let n = c.drain_into(&mut out, 2);
    assert_eq!(n, 2);
    assert_eq!(out, vec![1, 2]);
    // wrap around the ring
    c.produce(4);
    c.produce(5);
    c.produce(6);
    let n2 = c.drain_into(&mut out, 10);
    assert_eq!(n2, 4);
    assert_eq!(out, vec![1, 2, 3, 4, 5, 6]);
}

#[test]
fn drain_never_exceeds_request_or_occupancy() {
    let mut c = SampleChannel::new(8, 0);
    c.produce(7);
    c.produce(8);
    let mut out: Vec<i32> = Vec::new();
    assert_eq!(c.drain_into(&mut out, 1), 1);
    assert_eq!(c.drain_into(&mut out, 5), 1);
    assert_eq!(c.drain_into(&mut out, 5), 0);
    assert_eq!(out, vec![7, 8]);
}

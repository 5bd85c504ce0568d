use loadcast::{Distributor, Snapshot};

fn bits(vals: &[f32]) -> Vec<u32> {
    vals.iter().map(|v| v.to_bits()).collect()
}

fn snap(vals: &[f32]) -> Snapshot {
    Snapshot::new(bits(vals))
}

fn floats(readings: Vec<u32>) -> Vec<f32> {
    readings.into_iter().map(f32::from_bits).collect()
}

#[test]
fn pull_before_first_publish_is_empty() {
    let d = Distributor::new();
    assert_eq!(d.snapshot().into_readings(), Vec::<u32>::new());
}

#[test]
fn pull_returns_exactly_last_publish() {
    let mut d = Distributor::new();
    let runs = [
        vec![1.0f32, 2.0],
        vec![3.0f32, 4.0],
        vec![5.0f32, 6.0],
    ];
    for r in &runs {
        d.publish(snap(r));
        assert_eq!(floats(d.snapshot().into_readings()), *r);
    }
}

#[test]
fn prompt_subscriber_receives_every_publish() {
    let mut d = Distributor::new();
    let id = d.subscribe();
    let runs = [
        vec![10.0f32, 20.0],
        vec![15.0f32, 25.0],
        vec![5.0f32, 30.0],
        vec![0.0f32, 0.0],
    ];
    let mut got = Vec::new();
    for r in &runs {
        d.publish(snap(r));
        let taken = d.take(id).expect("a publish just filled the mailbox");
        got.push(floats(taken.into_readings()));
    }
    assert_eq!(got, runs.to_vec());
}

#[test]
fn stalled_subscriber_gets_latest_only() {
    let mut d = Distributor::new();
    let id = d.subscribe();
    d.publish(snap(&[1.0]));
    d.publish(snap(&[2.0]));
    d.publish(snap(&[3.0]));
    let taken = d.take(id).expect("three publishes are pending as one");
    assert_eq!(floats(taken.into_readings()), vec![3.0f32]);
    assert!(d.take(id).is_none(), "nothing may be delivered twice");
}

#[test]
fn stalled_subscriber_sees_ordered_subsequence() {
    let mut d = Distributor::new();
    let id = d.subscribe();
    let mut got = Vec::new();
    d.publish(snap(&[1.0]));
    if let Some(s) = d.take(id) {
        got.push(floats(s.into_readings()));
    }
    d.publish(snap(&[2.0]));
    d.publish(snap(&[3.0]));
    if let Some(s) = d.take(id) {
        got.push(floats(s.into_readings()));
    }
    assert_eq!(got, vec![vec![1.0f32], vec![3.0f32]]);
}

#[test]
fn publish_succeeds_under_many_stalled_subscribers() {
    let mut d = Distributor::new();
    let mut ids = Vec::new();
    for _ in 0..100 {
        assert!(d.can_subscribe());
        ids.push(d.subscribe());
    }
    for k in 0..50u32 {
        d.publish(Snapshot::new(vec![k, k + 1]));
    }
    assert_eq!(d.snapshot().into_readings(), vec![49u32, 50]);
    for id in ids {
        let taken = d.take(id).expect("every mailbox holds the last publish");
        assert_eq!(taken.into_readings(), vec![49u32, 50]);
    }
}

#[test]
fn unsubscribe_leaves_others_untouched() {
    let mut d = Distributor::new();
    let a = d.subscribe();
    let b = d.subscribe();
    d.publish(snap(&[7.0]));
    assert!(d.unsubscribe(a));
    d.publish(snap(&[8.0]));
    let taken = d.take(b).expect("b is still live");
    assert_eq!(floats(taken.into_readings()), vec![8.0f32]);
    assert!(d.take(a).is_none(), "a is gone and receives nothing");
    assert!(!d.unsubscribe(a), "a was already removed");
}

#[test]
fn scenario_three_publishes_two_subscribers() {
    let mut d = Distributor::new();
    let early = d.subscribe();
    let mut early_got = Vec::new();

    d.publish(snap(&[10.0, 20.0]));
    assert_eq!(floats(d.snapshot().into_readings()), vec![10.0f32, 20.0]);
    early_got.push(floats(d.take(early).unwrap().into_readings()));

    d.publish(snap(&[15.0, 25.0]));
    early_got.push(floats(d.take(early).unwrap().into_readings()));
    let late = d.subscribe();

    d.publish(snap(&[5.0, 30.0]));
    early_got.push(floats(d.take(early).unwrap().into_readings()));
    let late_got = floats(d.take(late).unwrap().into_readings());

    assert_eq!(
        early_got,
        vec![vec![10.0f32, 20.0], vec![15.0f32, 25.0], vec![5.0f32, 30.0]]
    );
    assert_eq!(late_got, vec![5.0f32, 30.0]);
}

#[test]
fn take_with_unknown_handle_is_none() {
    let mut d = Distributor::new();
    d.publish(snap(&[1.0]));
    assert!(d.take(42).is_none());
    assert!(!d.unsubscribe(42));
}

#[test]
fn empty_snapshot_is_distributed_like_any_other() {
    let mut d = Distributor::new();
    let id = d.subscribe();
    d.publish(snap(&[1.0, 2.0]));
    d.publish(Snapshot::new(Vec::new()));
    assert_eq!(d.snapshot().into_readings(), Vec::<u32>::new());
    let taken = d.take(id).expect("the empty snapshot is still a publish");
    assert_eq!(taken.into_readings(), Vec::<u32>::new());
}

#[test]
fn core_count_may_vary_between_publishes() {
    let mut d = Distributor::new();
    d.publish(snap(&[1.0, 2.0]));
    d.publish(snap(&[1.0, 2.0, 3.0, 4.0]));
    let s = d.snapshot();
    assert_eq!(s.len(), 4);
    assert_eq!(f32::from_bits(s.reading(2)), 3.0f32);
}

#[test]
fn snapshot_hands_readings_back_unchanged() {
    let s = Snapshot::new(vec![0u32, 7, u32::MAX]);
    assert_eq!(s.len(), 3);
    assert_eq!(s.reading(1), 7);
    assert_eq!(s.into_readings(), vec![0u32, 7, u32::MAX]);
}

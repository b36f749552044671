use wavebars::SampleChannel;

#[test]
fn overflow_drops_newest_and_signals() {
    // capacity 4, writing five samples: overflow signalled, first four kept
    let mut c = SampleChannel::new(4);
    let overflow = c.write(&vec![1, 2, 3, 4, 5]);
    assert!(overflow);
    assert_eq!(c.drain(), vec![1, 2, 3, 4]);
}

#[test]
fn writes_past_capacity_signal_at_least_once() {
    let mut c = SampleChannel::new(3);
    let o1 = c.write(&vec![1, 2]);
    let o2 = c.write(&vec![3, 4]);
    let o3 = c.write(&vec![5]);
    assert!(o1 || o2 || o3);
    let drained = c.drain();
    assert!(drained.len() <= 3);
    assert_eq!(drained, vec![1, 2, 3]);
}

#[test]
fn second_drain_is_empty() {
    let mut c = SampleChannel::new(8);
    let overflow = c.write(&vec![7, 8, 9]);
    assert!(!overflow);
    assert_eq!(c.drain(), vec![7, 8, 9]);
    assert_eq!(c.drain(), Vec::<i16>::new());
}

#[test]
fn drain_of_empty_channel_is_empty() {
    let mut c = SampleChannel::new(4);
    assert_eq!(c.drain(), Vec::<i16>::new());
}

#[test]
fn writes_within_capacity_keep_order() {
    let mut c = SampleChannel::new(10);
    assert!(!c.write(&vec![1, 2, 3]));
    assert!(!c.write(&vec![4, 5]));
    assert_eq!(c.drain(), vec![1, 2, 3, 4, 5]);
}

#[test]
fn latency_sizing_prefills_silence() {
    // one second of latency at 4 Hz on 2 channels: capacity doubled to 16,
    // pre-filled with 8 samples of silence
    let mut c = SampleChannel::for_latency(1, 4, 2);
    assert_eq!(c.capacity(), 16);
    let prefill = c.drain();
    assert_eq!(prefill, vec![0i16; 8]);
}

#[test]
fn write_into_prefilled_channel_appends() {
    let mut c = SampleChannel::for_latency(1, 2, 1);
    assert_eq!(c.capacity(), 4);
    assert!(!c.write(&vec![5, 6]));
    assert_eq!(c.drain(), vec![0, 0, 5, 6]);
}

use tproxy::timing::{TimingEngine, TimingNormalizer, DEFAULT_DELAY_US, MAX_DELAY_US, MIN_DELAY_US};

#[test]
fn test_timing_normalizer() {
    // A 10 ms target with a ten per cent tolerance, in microseconds.
    let normalizer = TimingNormalizer::new(10000, 10);
    let measured = 11000;
    assert_eq!(normalizer.normalize(measured), measured);
    let measured = 20000;
    assert_eq!(normalizer.normalize(measured), 10000);
}

#[test]
fn empty_history_uses_default_delay() {
    let engine = TimingEngine::new(100);
    assert_eq!(engine.get_natural_delay(), DEFAULT_DELAY_US);
}

#[test]
fn recorded_intervals_feed_the_median() {
    let mut engine = TimingEngine::new(100);
    engine.record_packet();
    engine.record_packet();
    engine.record_packet();
    let stats = engine.get_stats();
    assert_eq!(stats.count, 2);
    let delay = engine.get_natural_delay();
    assert!(engine.inter_packet_delays.contains(&delay));
}

#[test]
fn delays_clamped_to_band() {
    let engine = TimingEngine::new(10);
    assert_eq!(engine.clamp_delay(0), MIN_DELAY_US);
    assert_eq!(engine.clamp_delay(20000), 20000);
    assert_eq!(engine.clamp_delay(u64::MAX), MAX_DELAY_US);
}

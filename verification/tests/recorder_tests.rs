use actor_test::recorder::{Recorder, Summary};

#[test]
fn export_on_empty_recorder_is_none() {
    let rec = Recorder::new("actor".to_string());
    assert!(rec.export().is_none());
    assert_eq!(rec.count(), 0);
}

#[test]
fn recorder_keeps_its_channel_name() {
    let rec = Recorder::new("sender".to_string());
    assert_eq!(rec.channel(), "sender");
}

#[test]
fn single_sample_summary() {
    let mut rec = Recorder::new("actor".to_string());
    rec.record(7);
    let summary = rec.export().unwrap();
    assert_eq!(
        summary,
        Summary { count: 1, min: 7, max: 7, p50: 7, p90: 7, p95: 7, p99: 7, p999: 7 }
    );
}

#[test]
fn four_sample_summary_exact() {
    let mut rec = Recorder::new("actor".to_string());
    for sample in [5u64, 1, 9, 3] {
        rec.record(sample);
    }
    // ranked: [1, 3, 5, 9]; rank(permille) = permille * 4 / 1000
    let summary = rec.export().unwrap();
    assert_eq!(
        summary,
        Summary { count: 4, min: 1, max: 9, p50: 5, p90: 9, p95: 9, p99: 9, p999: 9 }
    );
}

#[test]
fn thousand_sample_percentiles() {
    let mut rec = Recorder::new("actor".to_string());
    // 1000 samples: 1..=1000, recorded out of order
    for sample in (1u64..=1000).rev() {
        rec.record(sample);
    }
    let summary = rec.export().unwrap();
    assert_eq!(summary.count, 1000);
    assert_eq!(summary.min, 1);
    assert_eq!(summary.max, 1000);
    assert_eq!(summary.p50, 501);
    assert_eq!(summary.p90, 901);
    assert_eq!(summary.p95, 951);
    assert_eq!(summary.p99, 991);
    assert_eq!(summary.p999, 1000);
}

#[test]
fn summary_is_internally_ordered() {
    let mut rec = Recorder::new("sender".to_string());
    for sample in [42u64, 7, 19, 3, 88, 23, 55, 1, 64, 10, 10, 3] {
        rec.record(sample);
    }
    let s = rec.export().unwrap();
    assert!(s.min <= s.p50);
    assert!(s.p50 <= s.p90);
    assert!(s.p90 <= s.p95);
    assert!(s.p95 <= s.p99);
    assert!(s.p99 <= s.p999);
    assert!(s.p999 <= s.max);
}

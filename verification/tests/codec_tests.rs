//! Round-trip and accumulation tests over a double-precision scalar.

use metric_core::metric::{extend_keys, Metric, MetricError, MetricType};
use metric_core::scalar::Scalar;
use metric_core::typename::MetricTypeName;

#[derive(Clone, Copy, PartialEq, Debug)]
struct F64Value(f64);

impl Scalar for F64Value {
    // The ghost members of the capability interface are erased before this
    // crate is compiled; their bodies here restate the runtime operations
    // and are never executed.
    fn wire_spec(self) -> u64 {
        self.0.to_bits()
    }

    fn unwire_spec(b: u64) -> Self {
        F64Value(f64::from_bits(b))
    }

    fn add_spec(self, other: Self) -> Self {
        F64Value(self.0 + other.0)
    }

    fn sub_spec(self, other: Self) -> Self {
        F64Value(self.0 - other.0)
    }

    fn gt_spec(self, other: Self) -> bool {
        self.0 > other.0
    }

    fn lemma_wire_roundtrip(_x: Self) {}

    fn to_wire(self) -> u64 {
        self.0.to_bits()
    }

    fn from_wire(b: u64) -> Self {
        F64Value(f64::from_bits(b))
    }

    fn add(self, other: Self) -> Self {
        F64Value(self.0 + other.0)
    }

    fn sub(self, other: Self) -> Self {
        F64Value(self.0 - other.0)
    }

    fn gt(self, other: Self) -> bool {
        self.0 > other.0
    }
}

fn codec_test(metric: Metric<F64Value>) {
    let buf = metric.encode();
    let (name, rmetric) = Metric::<F64Value>::decode(&buf).unwrap();
    assert!(name.is_empty());
    assert_eq!(rmetric, metric);
}

#[test]
fn test_metric_capnp_counter() {
    let mut metric1 = Metric::new(
        F64Value(1.0),
        MetricType::Counter,
        Some(10),
        Some(0.1f32.to_bits()),
    )
    .unwrap();
    let metric2 = Metric::new(F64Value(2.0), MetricType::Counter, None, None).unwrap();
    metric1.accumulate(metric2).unwrap();
    codec_test(metric1);
}

#[test]
fn test_metric_capnp_diffcounter() {
    let mut metric1 = Metric::new(
        F64Value(1.0),
        MetricType::DiffCounter(F64Value(0.1)),
        Some(20),
        Some(0.2f32.to_bits()),
    )
    .unwrap();
    let metric2 =
        Metric::new(F64Value(1.0), MetricType::DiffCounter(F64Value(0.5)), None, None).unwrap();
    metric1.accumulate(metric2).unwrap();
    codec_test(metric1);
}

#[test]
fn test_metric_capnp_timer() {
    let mut metric1 = Metric::new(
        F64Value(1.0),
        MetricType::Timer(Vec::new()),
        Some(10),
        Some(0.1f32.to_bits()),
    )
    .unwrap();
    let metric2 =
        Metric::new(F64Value(2.0), MetricType::Timer(vec![F64Value(3.0)]), None, None).unwrap();
    metric1.accumulate(metric2).unwrap();
    assert!(if let MetricType::Timer(ref v) = metric1.mtype {
        v.len() == 3
    } else {
        false
    });

    codec_test(metric1);
}

#[test]
fn test_metric_capnp_gauge() {
    let mut metric1 = Metric::new(
        F64Value(1.0),
        MetricType::Gauge(None),
        Some(10),
        Some(0.1f32.to_bits()),
    )
    .unwrap();
    let metric2 = Metric::new(F64Value(2.0), MetricType::Gauge(Some(-1)), None, None).unwrap();
    metric1.accumulate(metric2).unwrap();

    codec_test(metric1);
}

#[test]
fn test_metric_capnp_set() {
    let mut set1: Vec<u64> = Vec::new();
    extend_keys(&mut set1, &vec![10u64, 20u64, 10u64]);
    let mut metric1 = Metric::new(
        F64Value(1.0),
        MetricType::ValueSet(set1),
        Some(10),
        Some(0.1f32.to_bits()),
    )
    .unwrap();
    let mut set2: Vec<u64> = Vec::new();
    extend_keys(&mut set2, &vec![10u64, 30u64]);
    let metric2 = Metric::new(F64Value(2.0), MetricType::ValueSet(set2), None, None).unwrap();
    metric1.accumulate(metric2).unwrap();

    codec_test(metric1);
}

#[test]
fn accumulate_counter_sums_value_and_counter() {
    let mut m1 = Metric::new(
        F64Value(1.0),
        MetricType::Counter,
        Some(10),
        Some(0.1f32.to_bits()),
    )
    .unwrap();
    let m2 = Metric::new(F64Value(2.0), MetricType::Counter, None, None).unwrap();
    m1.accumulate(m2).unwrap();
    assert_eq!(m1.value, F64Value(3.0));
    assert_eq!(m1.update_counter, 2);
    assert_eq!(m1.timestamp, Some(10));
    assert_eq!(m1.sampling, Some(0.1f32.to_bits()));
}

#[test]
fn accumulate_diffcounter_tracks_previous_reading() {
    let mut m1 =
        Metric::new(F64Value(1.0), MetricType::DiffCounter(F64Value(0.1)), None, None).unwrap();
    let m2 =
        Metric::new(F64Value(1.0), MetricType::DiffCounter(F64Value(0.5)), None, None).unwrap();
    m1.accumulate(m2).unwrap();
    // new.value (1) exceeds the stored previous reading (0.1), so the
    // difference 1 - 0.1 is added and the previous reading becomes the new
    // raw reading, new.value.
    assert_eq!(m1.value, F64Value(1.0 + (1.0 - 0.1)));
    assert!(if let MetricType::DiffCounter(prev) = m1.mtype {
        prev == F64Value(1.0)
    } else {
        false
    });
    assert_eq!(m1.update_counter, 2);
}

#[test]
fn accumulate_timer_appends_and_adopts_value() {
    let mut m1 = Metric::new(F64Value(1.0), MetricType::Timer(Vec::new()), None, None).unwrap();
    let m2 =
        Metric::new(F64Value(2.0), MetricType::Timer(vec![F64Value(3.0)]), None, None).unwrap();
    m1.accumulate(m2).unwrap();
    assert_eq!(m1.value, F64Value(2.0));
    if let MetricType::Timer(ref v) = m1.mtype {
        assert_eq!(v.len(), 3);
        assert!(v.contains(&F64Value(1.0)));
        assert!(v.contains(&F64Value(2.0)));
        assert!(v.contains(&F64Value(3.0)));
    } else {
        panic!("timer expected");
    }
}

#[test]
fn accumulate_gauge_decrement() {
    let mut m1 = Metric::new(F64Value(1.0), MetricType::Gauge(None), None, None).unwrap();
    let m2 = Metric::new(F64Value(2.0), MetricType::Gauge(Some(-1)), None, None).unwrap();
    m1.accumulate(m2).unwrap();
    assert_eq!(m1.value, F64Value(-1.0));
}

#[test]
fn accumulate_gauge_increment_and_replace() {
    let mut m1 = Metric::new(F64Value(5.0), MetricType::Gauge(None), None, None).unwrap();
    let m2 = Metric::new(F64Value(2.0), MetricType::Gauge(Some(1)), None, None).unwrap();
    m1.accumulate(m2).unwrap();
    assert_eq!(m1.value, F64Value(7.0));
    let m3 = Metric::new(F64Value(42.0), MetricType::Gauge(None), None, None).unwrap();
    m1.accumulate(m3).unwrap();
    assert_eq!(m1.value, F64Value(42.0));
}

#[test]
fn accumulate_gauge_invalid_direction_is_rejected() {
    let mut m1 = Metric::new(F64Value(5.0), MetricType::Gauge(None), None, None).unwrap();
    let m2 = Metric {
        value: F64Value(2.0),
        mtype: MetricType::Gauge(Some(3)),
        timestamp: None,
        update_counter: 1,
        sampling: None,
    };
    assert_eq!(m1.accumulate(m2), Err(MetricError::Aggregating));
    assert_eq!(m1.value, F64Value(5.0));
}

#[test]
fn accumulate_set_unions_by_bit_pattern() {
    let mut m1 = Metric {
        value: F64Value(1.0),
        mtype: MetricType::ValueSet(vec![10u64, 20u64]),
        timestamp: None,
        update_counter: 1,
        sampling: None,
    };
    let m2 = Metric {
        value: F64Value(2.0),
        mtype: MetricType::ValueSet(vec![10u64, 30u64]),
        timestamp: None,
        update_counter: 1,
        sampling: None,
    };
    m1.accumulate(m2).unwrap();
    if let MetricType::ValueSet(ref keys) = m1.mtype {
        assert_eq!(keys, &vec![10u64, 20u64, 30u64]);
    } else {
        panic!("set expected");
    }
    assert_eq!(m1.value, F64Value(1.0));
}

#[test]
fn accumulate_mismatched_variants_is_rejected() {
    let mut m1 = Metric::new(F64Value(1.0), MetricType::Counter, None, None).unwrap();
    let m2 = Metric::new(F64Value(2.0), MetricType::Gauge(None), None, None).unwrap();
    assert_eq!(m1.accumulate(m2), Err(MetricError::Aggregating));
    // The update counter is summed first, unconditionally.
    assert_eq!(m1.update_counter, 2);
    assert_eq!(m1.value, F64Value(1.0));
    assert!(matches!(m1.mtype, MetricType::Counter));
}

#[test]
fn new_seeds_timer_and_set_state() {
    let m = Metric::new(F64Value(4.5), MetricType::Timer(Vec::new()), None, None).unwrap();
    assert!(if let MetricType::Timer(ref v) = m.mtype {
        v.len() == 1 && v[0] == F64Value(4.5)
    } else {
        false
    });
    assert_eq!(m.update_counter, 1);

    let m = Metric::new(F64Value(4.5), MetricType::ValueSet(Vec::new()), None, None).unwrap();
    assert!(if let MetricType::ValueSet(ref v) = m.mtype {
        v.len() == 1 && v[0] == 4.5f64.to_bits()
    } else {
        false
    });
}

#[test]
fn roundtrip_empty_timer_and_single_element_set() {
    let m = Metric {
        value: F64Value(0.0),
        mtype: MetricType::Timer(Vec::new()),
        timestamp: None,
        update_counter: 1,
        sampling: None,
    };
    codec_test(m);
    let m = Metric {
        value: F64Value(0.0),
        mtype: MetricType::ValueSet(vec![7u64]),
        timestamp: None,
        update_counter: 3,
        sampling: Some(1.0f32.to_bits()),
    };
    codec_test(m);
}

#[test]
fn decode_without_meta_defaults_counter_and_sampling() {
    // A record written by hand: empty name, value 2.5, counter payload,
    // no timestamp, no metadata block.
    let mut buf: Vec<u8> = Vec::new();
    buf.extend_from_slice(&0u32.to_le_bytes());
    buf.extend_from_slice(&2.5f64.to_bits().to_le_bytes());
    buf.push(0); // counter payload
    buf.push(0); // no timestamp
    buf.push(0); // no metadata block
    let (name, m) = Metric::<F64Value>::decode(&buf).unwrap();
    assert!(name.is_empty());
    assert_eq!(m.value, F64Value(2.5));
    assert!(matches!(m.mtype, MetricType::Counter));
    assert_eq!(m.timestamp, None);
    assert_eq!(m.update_counter, 1);
    assert_eq!(m.sampling, None);
}

#[test]
fn decode_truncated_record_is_malformed() {
    assert_eq!(
        Metric::<F64Value>::decode(&[1u8, 2u8, 3u8]),
        Err(MetricError::Capnp)
    );
}

#[test]
fn decode_unknown_discriminant_is_schema_error() {
    let mut buf: Vec<u8> = Vec::new();
    buf.extend_from_slice(&0u32.to_le_bytes());
    buf.extend_from_slice(&1.0f64.to_bits().to_le_bytes());
    buf.push(9); // no such payload tag
    buf.push(0);
    buf.push(0);
    assert_eq!(
        Metric::<F64Value>::decode(&buf),
        Err(MetricError::CapnpSchema)
    );
}

#[test]
fn decode_trailing_bytes_are_malformed() {
    let m = Metric::new(F64Value(1.0), MetricType::Counter, None, None).unwrap();
    let mut buf = m.encode();
    buf.push(0);
    assert_eq!(
        Metric::<F64Value>::decode(&buf),
        Err(MetricError::Capnp)
    );
}

#[test]
fn type_names_round_trip() {
    let tags = [
        MetricTypeName::Default,
        MetricTypeName::Counter,
        MetricTypeName::DiffCounter,
        MetricTypeName::Timer,
        MetricTypeName::Gauge,
        MetricTypeName::ValueSet,
    ];
    for tag in tags {
        let s = tag.to_string();
        assert_eq!(MetricTypeName::try_from(&s).unwrap(), tag);
    }
    assert_eq!(MetricTypeName::try_from("counter").unwrap(), MetricTypeName::Counter);
    assert_eq!(
        MetricTypeName::try_from("diff-counter").unwrap(),
        MetricTypeName::DiffCounter
    );
    assert_eq!(MetricTypeName::try_from("set").unwrap(), MetricTypeName::ValueSet);
    assert_eq!(MetricTypeName::Gauge.to_string(), "gauge");
}

#[test]
fn unknown_type_name_is_reported() {
    assert_eq!(
        MetricTypeName::try_from("histogram"),
        Err(MetricError::BadTypeName("histogram".to_string()))
    );
}

#[test]
fn from_metric_names_every_variant() {
    let m = Metric::new(F64Value(1.0), MetricType::Counter, None, None).unwrap();
    assert_eq!(MetricTypeName::from_metric(&m), MetricTypeName::Counter);
    let m = Metric::new(F64Value(1.0), MetricType::DiffCounter(F64Value(0.0)), None, None).unwrap();
    assert_eq!(MetricTypeName::from_metric(&m), MetricTypeName::DiffCounter);
    let m = Metric::new(F64Value(1.0), MetricType::Timer(Vec::new()), None, None).unwrap();
    assert_eq!(MetricTypeName::from_metric(&m), MetricTypeName::Timer);
    let m = Metric::new(F64Value(1.0), MetricType::Gauge(Some(1)), None, None).unwrap();
    assert_eq!(MetricTypeName::from_metric(&m), MetricTypeName::Gauge);
    let m = Metric::new(F64Value(1.0), MetricType::ValueSet(Vec::new()), None, None).unwrap();
    assert_eq!(MetricTypeName::from_metric(&m), MetricTypeName::ValueSet);
}

#[test]
fn roundtrip_negative_gauge_direction_and_timestamp() {
    let m = Metric {
        value: F64Value(-3.25),
        mtype: MetricType::Gauge(Some(-1)),
        timestamp: Some(u64::MAX),
        update_counter: 7,
        sampling: None,
    };
    codec_test(m);
}

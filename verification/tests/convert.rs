use remote_write::{
    Bucket, Label, Metric, MetricFamily, MetricValue, Quantile, Sample, TimeSeries, WriteRequest,
    COUNT_SUFFIX, LABEL_NAME, SUM_SUFFIX,
};

fn counter_family(name: &str, value: f64) -> MetricFamily {
    MetricFamily {
        name: name.to_string(),
        metrics: vec![Metric {
            labels: vec![],
            value: MetricValue::Counter {
                value_bits: value.to_bits(),
            },
        }],
    }
}

#[test]
fn can_encode_counter() {
    let counter_name = "my_counter";
    let _help = "an extra description";
    let incremented_by = 5.0;
    let families = vec![counter_family(counter_name, incremented_by)];
    let req = WriteRequest::from_metric_families(families, None).expect("Failed to encode counter");
    assert_eq!(req.timeseries.len(), 1);
    let entry = req.timeseries.first().unwrap();
    assert_eq!(entry.labels.len(), 1);
    assert_eq!(
        entry
            .labels
            .iter()
            .find(|l| l.name == LABEL_NAME)
            .unwrap()
            .value,
        counter_name
    );
    assert_eq!(
        entry.samples.first().unwrap().value_bits,
        incremented_by.to_bits()
    );
}

#[test]
fn can_encode_gauge() {
    let gauge_name = "my_gauge";
    let _help = "an extra description";
    let incremented_by = 5.0;
    let families = vec![MetricFamily {
        name: gauge_name.to_string(),
        metrics: vec![Metric {
            labels: vec![],
            value: MetricValue::Gauge {
                value_bits: (incremented_by as f64).to_bits(),
            },
        }],
    }];
    let req = WriteRequest::from_metric_families(families, None).expect("Failed to encode gauge");
    assert_eq!(req.timeseries.len(), 1);
    let entry = req.timeseries.first().unwrap();
    assert_eq!(entry.labels.len(), 1);
    assert_eq!(
        entry
            .labels
            .iter()
            .find(|l| l.name == LABEL_NAME)
            .unwrap()
            .value,
        gauge_name
    );
    assert_eq!(
        entry.samples.first().unwrap().value_bits,
        (incremented_by as f64).to_bits()
    );
}

#[test]
fn can_encode_histogram() {
    let histogram_name = "my_histogram";
    let _help = "an extra description".to_string();
    // bucket bounds 10, 1000, 10000; observations 5, 500, 5000, 50000
    let families = vec![MetricFamily {
        name: histogram_name.to_string(),
        metrics: vec![Metric {
            labels: vec![],
            value: MetricValue::Histogram {
                buckets: vec![
                    Bucket {
                        upper_bound_text: "10".to_string(),
                        cumulative_count_bits: 1.0f64.to_bits(),
                    },
                    Bucket {
                        upper_bound_text: "1000".to_string(),
                        cumulative_count_bits: 2.0f64.to_bits(),
                    },
                    Bucket {
                        upper_bound_text: "10000".to_string(),
                        cumulative_count_bits: 3.0f64.to_bits(),
                    },
                ],
                sum_bits: 55505.0f64.to_bits(),
                count_bits: 4.0f64.to_bits(),
            },
        }],
    }];
    let req =
        WriteRequest::from_metric_families(families, None).expect("Failed to encode histogram");
    assert_eq!(req.timeseries.len(), 6);
    let bucket_names: Vec<String> = req
        .timeseries
        .clone()
        .into_iter()
        .filter_map(|ts| {
            ts.labels
                .iter()
                .find(|l| l.name == "le")
                .map(|l| l.value.clone())
        })
        .collect();
    assert_eq!(bucket_names, vec!["10", "1000", "10000", "+Inf"]);

    let count_observations = req
        .timeseries
        .clone()
        .iter()
        .find(|l| {
            l.labels.iter().any(|label| {
                label.name == LABEL_NAME
                    && label.value == format!("{}{}", histogram_name, COUNT_SUFFIX)
            })
        })
        .map(|ts| ts.samples.first().unwrap().value_bits)
        .unwrap();
    assert_eq!(count_observations, 4.0f64.to_bits());
    let sum_observation = req
        .timeseries
        .iter()
        .find(|l| {
            l.labels.iter().any(|label| {
                label.name == LABEL_NAME
                    && label.value == format!("{}{}", histogram_name, SUM_SUFFIX)
            })
        })
        .map(|ts| ts.samples.first().unwrap().value_bits)
        .unwrap();
    assert_eq!(sum_observation, 55505.0f64.to_bits())
}

#[test]
fn can_add_custom_labels() {
    let counter_name = "my_counter";
    let _help = "an extra description";
    let incremented_by = 5.0;
    let families = vec![counter_family(counter_name, incremented_by)];
    let req = WriteRequest::from_metric_families(
        families,
        Some(vec![("foo".into(), "bar".into())]),
    )
    .expect("Failed to encode counter");
    assert_eq!(req.timeseries.len(), 1);
    let entry = req.timeseries.first().unwrap();
    assert_eq!(entry.labels.len(), 2);
    assert_eq!(
        entry
            .labels
            .iter()
            .find(|l| l.name == LABEL_NAME)
            .unwrap()
            .value,
        counter_name
    );
    assert_eq!(
        entry.labels.iter().find(|l| l.name == "foo").unwrap().value,
        "bar"
    );
    assert_eq!(
        entry.samples.first().unwrap().value_bits,
        incremented_by.to_bits()
    );
}

#[test]
fn empty_family_list_converts_to_empty_request() {
    let req = WriteRequest::from_metric_families(vec![], None).unwrap();
    assert_eq!(req.timeseries.len(), 0);
}

#[test]
fn untyped_metrics_are_skipped() {
    let families = vec![MetricFamily {
        name: "nothing".to_string(),
        metrics: vec![Metric {
            labels: vec![],
            value: MetricValue::Untyped,
        }],
    }];
    let req = WriteRequest::from_metric_families(families, None).unwrap();
    assert_eq!(req.timeseries.len(), 0);
}

#[test]
fn summary_expands_to_quantiles_sum_and_count() {
    let families = vec![MetricFamily {
        name: "lat".to_string(),
        metrics: vec![Metric {
            labels: vec![Label {
                name: "job".to_string(),
                value: "api".to_string(),
            }],
            value: MetricValue::Summary {
                quantiles: vec![Quantile {
                    quantile_text: "0.5".to_string(),
                    value_bits: 7.0f64.to_bits(),
                }],
                sum_bits: 21.0f64.to_bits(),
                count_bits: 3.0f64.to_bits(),
            },
        }],
    }];
    let req = WriteRequest::from_metric_families(families, None).unwrap();
    assert_eq!(req.timeseries.len(), 3);
    // sorted by __name__: "lat" < "lat_count" < "lat_sum"
    let q = &req.timeseries[0];
    assert_eq!(
        q.labels.iter().find(|l| l.name == "quantile").unwrap().value,
        "0.5"
    );
    assert_eq!(
        q.labels.iter().find(|l| l.name == "job").unwrap().value,
        "api"
    );
    assert_eq!(q.samples[0].value_bits, 7.0f64.to_bits());
    let c = &req.timeseries[1];
    assert_eq!(
        c.labels.iter().find(|l| l.name == LABEL_NAME).unwrap().value,
        "lat_count"
    );
    assert_eq!(c.samples[0].value_bits, 3.0f64.to_bits());
    let s = &req.timeseries[2];
    assert_eq!(
        s.labels.iter().find(|l| l.name == LABEL_NAME).unwrap().value,
        "lat_sum"
    );
    assert_eq!(s.samples[0].value_bits, 21.0f64.to_bits());
}

#[test]
fn conversion_is_independent_of_family_order() {
    let a = counter_family("aaa", 1.0);
    let b = counter_family("bbb", 2.0);
    let extra: Vec<(String, String)> = vec![];
    let r1 = remote_write::convert::convert_at(&vec![a.clone(), b.clone()], &extra, 77);
    let r2 = remote_write::convert::convert_at(&vec![b, a], &extra, 77);
    assert_eq!(r1, r2);
    assert_eq!(r1.timeseries[0].labels[0].value, "aaa");
    assert_eq!(r1.timeseries[1].labels[0].value, "bbb");
}

#[test]
fn extra_labels_override_instance_labels() {
    let families = vec![MetricFamily {
        name: "m".to_string(),
        metrics: vec![Metric {
            labels: vec![Label {
                name: "env".to_string(),
                value: "dev".to_string(),
            }],
            value: MetricValue::Counter {
                value_bits: 1.0f64.to_bits(),
            },
        }],
    }];
    let req = WriteRequest::from_metric_families(
        families,
        Some(vec![("env".to_string(), "prod".to_string())]),
    )
    .unwrap();
    let entry = &req.timeseries[0];
    assert_eq!(entry.labels.len(), 2);
    assert_eq!(
        entry.labels.iter().find(|l| l.name == "env").unwrap().value,
        "prod"
    );
}

#[test]
fn canonical_sort_is_idempotent() {
    let mut req = WriteRequest {
        timeseries: vec![TimeSeries {
            labels: vec![
                Label {
                    name: "z".to_string(),
                    value: "1".to_string(),
                },
                Label {
                    name: "a".to_string(),
                    value: "2".to_string(),
                },
            ],
            samples: vec![
                Sample {
                    value_bits: 0,
                    timestamp: 9,
                },
                Sample {
                    value_bits: 1,
                    timestamp: 3,
                },
            ],
        }],
    };
    req.sort();
    let once = req.clone();
    req.sort();
    assert_eq!(req, once);
    assert_eq!(once.timeseries[0].labels[0].name, "a");
    assert_eq!(once.timeseries[0].samples[0].timestamp, 3);
}

#[test]
fn get_timestamp_is_in_milliseconds_since_epoch() {
    let t = remote_write::get_timestamp();
    // sometime after 2020-01-01 and before 3000-01-01, in milliseconds
    assert!(t > 1_577_836_800_000);
    assert!(t < 32_503_680_000_000);
}

#[test]
fn extra_labels_take_precedence_over_the_derived_name() {
    // the documented merge precedence: instance labels, then the derived
    // __name__, then extra labels, later writers winning
    let families = vec![counter_family("real_name", 1.0)];
    let req = WriteRequest::from_metric_families(
        families,
        Some(vec![(LABEL_NAME.to_string(), "overridden".to_string())]),
    )
    .unwrap();
    let entry = &req.timeseries[0];
    assert_eq!(entry.labels.len(), 1);
    assert_eq!(entry.labels[0].name, LABEL_NAME);
    assert_eq!(entry.labels[0].value, "overridden");
}

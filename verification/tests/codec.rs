use remote_write::{Label, Sample, TimeSeries, WriteRequest};

#[test]
fn empty_request_encodes_to_empty_payload() {
    let req = WriteRequest { timeseries: vec![] };
    assert_eq!(req.clone().encode_proto3(), Vec::<u8>::new());
    let compressed = req.encode_compressed().expect("compression failed");
    // a valid snappy block that decompresses back to the empty payload
    let round = snap::raw::Decoder::new()
        .decompress_vec(&compressed)
        .expect("payload is not valid snappy");
    assert_eq!(round, Vec::<u8>::new());
}

fn one_series_request() -> WriteRequest {
    WriteRequest {
        timeseries: vec![TimeSeries {
            labels: vec![Label {
                name: "__name__".to_string(),
                value: "ab".to_string(),
            }],
            samples: vec![Sample {
                value_bits: 1.0f64.to_bits(),
                timestamp: 1000,
            }],
        }],
    }
}

#[test]
fn encodes_exact_wire_bytes() {
    let bytes = one_series_request().encode_proto3();
    let mut expected: Vec<u8> = Vec::new();
    // WriteRequest field 1: the one TimeSeries message, 30 bytes long
    expected.extend_from_slice(&[0x0a, 30]);
    // TimeSeries field 1: the Label message, 14 bytes long
    expected.extend_from_slice(&[0x0a, 14]);
    // Label field 1: name "__name__"
    expected.extend_from_slice(&[0x0a, 8]);
    expected.extend_from_slice(b"__name__");
    // Label field 2: value "ab"
    expected.extend_from_slice(&[0x12, 2]);
    expected.extend_from_slice(b"ab");
    // TimeSeries field 2: the Sample message, 12 bytes long
    expected.extend_from_slice(&[0x12, 12]);
    // Sample field 1: 1.0 as little-endian IEEE-754 bits
    expected.extend_from_slice(&[0x09, 0, 0, 0, 0, 0, 0, 0xf0, 0x3f]);
    // Sample field 2: timestamp 1000 as a varint
    expected.extend_from_slice(&[0x10, 0xe8, 0x07]);
    assert_eq!(bytes, expected);
}

#[test]
fn compressed_payload_round_trips() {
    let req = one_series_request();
    let raw = req.clone().encode_proto3();
    let compressed = req.encode_compressed().expect("compression failed");
    let round = snap::raw::Decoder::new()
        .decompress_vec(&compressed)
        .expect("payload is not valid snappy");
    assert_eq!(round, raw);
}

#[test]
fn encoding_canonicalizes_first() {
    // labels out of order: the encoder must sort them before writing
    let req = WriteRequest {
        timeseries: vec![TimeSeries {
            labels: vec![
                Label {
                    name: "b".to_string(),
                    value: "2".to_string(),
                },
                Label {
                    name: "a".to_string(),
                    value: "1".to_string(),
                },
            ],
            samples: vec![],
        }],
    };
    let sorted = WriteRequest {
        timeseries: vec![TimeSeries {
            labels: vec![
                Label {
                    name: "a".to_string(),
                    value: "1".to_string(),
                },
                Label {
                    name: "b".to_string(),
                    value: "2".to_string(),
                },
            ],
            samples: vec![],
        }],
    };
    assert_eq!(req.encode_proto3(), sorted.encode_proto3());
}

#[test]
fn zero_sample_fields_are_omitted() {
    // a sample whose value bits and timestamp are both zero encodes to an
    // empty sample message
    let req = WriteRequest {
        timeseries: vec![TimeSeries {
            labels: vec![],
            samples: vec![Sample {
                value_bits: 0,
                timestamp: 0,
            }],
        }],
    };
    // series payload: one empty sample message (tag + zero length)
    assert_eq!(req.encode_proto3(), vec![0x0a, 2, 0x12, 0]);
}

#[test]
fn negative_timestamps_use_ten_byte_varints() {
    let req = WriteRequest {
        timeseries: vec![TimeSeries {
            labels: vec![],
            samples: vec![Sample {
                value_bits: 0,
                timestamp: -1,
            }],
        }],
    };
    let mut expected: Vec<u8> = vec![0x0a, 13, 0x12, 11, 0x10];
    expected.extend_from_slice(&[0xff, 0xff, 0xff, 0xff, 0xff, 0xff, 0xff, 0xff, 0xff, 0x01]);
    assert_eq!(req.encode_proto3(), expected);
}

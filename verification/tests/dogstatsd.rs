use tremor_core::dogstatsd::{
    decode, encode_event, encode_metric, encode_service_check, substr, Datagram, DogStatsD, Event,
    Metric, MetricKind, ServiceCheck,
};

fn bv(s: &[u8]) -> Vec<u8> {
    s.to_vec()
}

fn metric_of(d: Datagram) -> Metric {
    match d {
        Datagram::Metric(m) => m,
        other => panic!("expected a metric, got {:?}", other),
    }
}

fn event_of(d: Datagram) -> Event {
    match d {
        Datagram::Event(e) => e,
        other => panic!("expected an event, got {:?}", other),
    }
}

fn service_check_of(d: Datagram) -> ServiceCheck {
    match d {
        Datagram::ServiceCheck(s) => s,
        other => panic!("expected a service check, got {:?}", other),
    }
}

#[test]
fn test_subslice() {
    let a = b"012345";

    assert_eq!(substr(a, 1, 6), Ok(&b"12345"[..]));
    assert_eq!(substr(a, 0, 4), Ok(&b"0123"[..]));
    assert_eq!(substr(a, 1, 4), Ok(&b"123"[..]));
    assert!(substr(a, 99, 6).is_err());
    assert!(substr(a, 0, 99).is_err());
}

#[test]
fn dogstatsd_complete_payload() {
    let data = b"dog:111|g|@0.5|#foo:bar,fizz:buzz|c:123abc";
    let parsed = metric_of(decode(data, 0).expect("failed to decode"));
    let expected = Metric {
        name: bv(b"dog"),
        values: vec![bv(b"111")],
        kind: MetricKind::Gauge,
        sample_rate: Some(bv(b"0.5")),
        tags: Some(vec![bv(b"foo:bar"), bv(b"fizz:buzz")]),
        container_id: Some(bv(b"123abc")),
    };
    assert_eq!(parsed, expected);
    let encoded = encode_metric(&parsed).expect("failed to encode");
    assert_eq!(encoded, data.to_vec());
}

#[test]
fn dogstatsd_complete_payload_multiple_values() {
    let data = b"dog:111:222:333:4.44|g|@0.5|#foo:bar,fizz:buzz|c:123abc";
    let parsed = metric_of(decode(data, 0).expect("failed to decode"));
    let expected = Metric {
        name: bv(b"dog"),
        values: vec![bv(b"111"), bv(b"222"), bv(b"333"), bv(b"4.44")],
        kind: MetricKind::Gauge,
        sample_rate: Some(bv(b"0.5")),
        tags: Some(vec![bv(b"foo:bar"), bv(b"fizz:buzz")]),
        container_id: Some(bv(b"123abc")),
    };
    assert_eq!(parsed, expected);
    let encoded = encode_metric(&parsed).expect("failed to encode");
    assert_eq!(encoded, data.to_vec());
}

#[test]
fn dogstatsd_payload_with_sample_and_tags() {
    let data = b"dog:111|g|@0.5|#foo:bar,fizz:buzz";
    let parsed = metric_of(decode(data, 0).expect("failed to decode"));
    let expected = Metric {
        name: bv(b"dog"),
        values: vec![bv(b"111")],
        kind: MetricKind::Gauge,
        sample_rate: Some(bv(b"0.5")),
        tags: Some(vec![bv(b"foo:bar"), bv(b"fizz:buzz")]),
        container_id: None,
    };
    assert_eq!(parsed, expected);
    let encoded = encode_metric(&parsed).expect("failed to encode");
    assert_eq!(encoded, data.to_vec());
}

#[test]
fn dogstatsd_payload_with_sample_and_container_id() {
    let data = b"dog:111|g|@0.5|c:123abc";
    let parsed = metric_of(decode(data, 0).expect("failed to decode"));
    let expected = Metric {
        name: bv(b"dog"),
        values: vec![bv(b"111")],
        kind: MetricKind::Gauge,
        sample_rate: Some(bv(b"0.5")),
        tags: None,
        container_id: Some(bv(b"123abc")),
    };
    assert_eq!(parsed, expected);
    let encoded = encode_metric(&parsed).expect("failed to encode");
    assert_eq!(encoded, data.to_vec());
}

#[test]
fn dogstatsd_payload_with_tags_and_container_id() {
    let data = b"dog:111|g|#foo:bar,fizz:buzz|c:123abc";
    let parsed = metric_of(decode(data, 0).expect("failed to decode"));
    let expected = Metric {
        name: bv(b"dog"),
        values: vec![bv(b"111")],
        kind: MetricKind::Gauge,
        sample_rate: None,
        tags: Some(vec![bv(b"foo:bar"), bv(b"fizz:buzz")]),
        container_id: Some(bv(b"123abc")),
    };
    assert_eq!(parsed, expected);
    let encoded = encode_metric(&parsed).expect("failed to encode");
    assert_eq!(encoded, data.to_vec());
}

#[test]
fn dogstatsd_payload_with_tags() {
    let data = b"dog:111|g|#foo:bar,fizz:buzz";
    let parsed = metric_of(decode(data, 0).expect("failed to decode"));
    let expected = Metric {
        name: bv(b"dog"),
        values: vec![bv(b"111")],
        kind: MetricKind::Gauge,
        sample_rate: None,
        tags: Some(vec![bv(b"foo:bar"), bv(b"fizz:buzz")]),
        container_id: None,
    };
    assert_eq!(parsed, expected);
    let encoded = encode_metric(&parsed).expect("failed to encode");
    assert_eq!(encoded, data.to_vec());
}

#[test]
fn dogstatsd_payload_with_tag() {
    let data = b"dog:111|g|#foo:bar";
    let parsed = metric_of(decode(data, 0).expect("failed to decode"));
    let expected = Metric {
        name: bv(b"dog"),
        values: vec![bv(b"111")],
        kind: MetricKind::Gauge,
        sample_rate: None,
        tags: Some(vec![bv(b"foo:bar")]),
        container_id: None,
    };
    assert_eq!(parsed, expected);
    let encoded = encode_metric(&parsed).expect("failed to encode");
    assert_eq!(encoded, data.to_vec());
}

#[test]
fn dogstatsd_payload_with_container_id() {
    let data = b"dog:111|g|c:123abc";
    let parsed = metric_of(decode(data, 0).expect("failed to decode"));
    let expected = Metric {
        name: bv(b"dog"),
        values: vec![bv(b"111")],
        kind: MetricKind::Gauge,
        sample_rate: None,
        tags: None,
        container_id: Some(bv(b"123abc")),
    };
    assert_eq!(parsed, expected);
    let encoded = encode_metric(&parsed).expect("failed to encode");
    assert_eq!(encoded, data.to_vec());
}

#[test]
fn dogstatsd_count() {
    let data = b"dog:1|c";
    let parsed = metric_of(decode(data, 0).expect("failed to decode"));
    let expected = Metric {
        name: bv(b"dog"),
        values: vec![bv(b"1")],
        kind: MetricKind::Count,
        sample_rate: None,
        tags: None,
        container_id: None,
    };
    assert_eq!(parsed, expected);
    let encoded = encode_metric(&parsed).expect("failed to encode");
    assert_eq!(encoded.as_slice(), data);
}

#[test]
fn dogstatsd_time() {
    let data = b"dog:320|ms";
    let parsed = metric_of(decode(data, 0).expect("failed to decode"));
    let expected = Metric {
        name: bv(b"dog"),
        values: vec![bv(b"320")],
        kind: MetricKind::Timing,
        sample_rate: None,
        tags: None,
        container_id: None,
    };
    assert_eq!(parsed, expected);
    let encoded = encode_metric(&parsed).expect("failed to encode");
    assert_eq!(encoded, data.to_vec());
}

#[test]
fn dogstatsd_event() {
    let data =
        b"_e{21,36}:An exception occurred|Cannot parse CSV file from 10.0.0.17|t:warning|#err_type:bad_file";
    let parsed = event_of(decode(data, 0).expect("failed to decode"));
    let expected = Event {
        title_length: 21,
        text_length: 36,
        title: bv(b"An exception occurred"),
        text: bv(b"Cannot parse CSV file from 10.0.0.17"),
        timestamp: None,
        hostname: None,
        aggregation_key: None,
        priority: None,
        source: None,
        event_type: Some(bv(b"warning")),
        tags: Some(vec![bv(b"err_type:bad_file")]),
        container_id: None,
    };
    assert_eq!(parsed, expected);
    let encoded = encode_event(&parsed).expect("failed to encode");
    assert_eq!(encoded, data.to_vec());
}

#[test]
fn dogstatsd_basic_event() {
    let data = b"_e{21,36}:An exception occurred|Cannot parse CSV file from 10.0.0.17";
    let parsed = event_of(decode(data, 0).expect("failed to decode"));
    let expected = Event {
        title_length: 21,
        text_length: 36,
        title: bv(b"An exception occurred"),
        text: bv(b"Cannot parse CSV file from 10.0.0.17"),
        timestamp: None,
        hostname: None,
        aggregation_key: None,
        priority: None,
        source: None,
        event_type: None,
        tags: None,
        container_id: None,
    };
    assert_eq!(parsed, expected);
    let encoded = encode_event(&parsed).expect("failed to encode");
    assert_eq!(encoded, data.to_vec());
}

#[test]
fn dogstatsd_complete_event() {
    let data =
        b"_e{4,6}:Test|A Test|d:1663016695|h:test.example.com|k:a1b2c3|p:normal|s:test|t:warning|#err_type:bad_file|c:123abc";
    let parsed = event_of(decode(data, 0).expect("failed to decode"));
    let expected = Event {
        title_length: 4,
        text_length: 6,
        title: bv(b"Test"),
        text: bv(b"A Test"),
        timestamp: Some(1663016695),
        hostname: Some(bv(b"test.example.com")),
        aggregation_key: Some(bv(b"a1b2c3")),
        priority: Some(bv(b"normal")),
        source: Some(bv(b"test")),
        event_type: Some(bv(b"warning")),
        tags: Some(vec![bv(b"err_type:bad_file")]),
        container_id: Some(bv(b"123abc")),
    };
    assert_eq!(parsed, expected);
    let encoded = encode_event(&parsed).expect("failed to encode");
    assert_eq!(encoded, data.to_vec());
}

#[test]
fn dogstatsd_service_check() {
    let data = b"_sc|Redis connection|2|#env:dev|m:Redis connection timed out after 10s";
    let parsed = service_check_of(decode(data, 0).expect("failed to decode"));
    let expected = ServiceCheck {
        name: bv(b"Redis connection"),
        status: 2,
        timestamp: None,
        hostname: None,
        tags: Some(vec![bv(b"env:dev")]),
        message: Some(bv(b"Redis connection timed out after 10s")),
        container_id: None,
    };
    assert_eq!(parsed, expected);
    let encoded = encode_service_check(&parsed).expect("failed to encode");
    assert_eq!(encoded, data.to_vec());
}

#[test]
fn dogstatsd_basic_service_check() {
    let data = b"_sc|Redis connection|2";
    let parsed = service_check_of(decode(data, 0).expect("failed to decode"));
    let expected = ServiceCheck {
        name: bv(b"Redis connection"),
        status: 2,
        timestamp: None,
        hostname: None,
        tags: None,
        message: None,
        container_id: None,
    };
    assert_eq!(parsed, expected);
    let encoded = encode_service_check(&parsed).expect("failed to encode");
    assert_eq!(encoded, data.to_vec());
}

#[test]
fn dogstatsd_complete_service_check() {
    let data =
        b"_sc|Redis connection|2|d:1663016695|h:test.example.com|#env:dev|m:Redis connection timed out after 10s|c:123abc";
    let parsed = service_check_of(decode(data, 0).expect("failed to decode"));
    let expected = ServiceCheck {
        name: bv(b"Redis connection"),
        status: 2,
        timestamp: Some(1663016695),
        hostname: Some(bv(b"test.example.com")),
        tags: Some(vec![bv(b"env:dev")]),
        message: Some(bv(b"Redis connection timed out after 10s")),
        container_id: Some(bv(b"123abc")),
    };
    assert_eq!(parsed, expected);
    let encoded = encode_service_check(&parsed).expect("failed to encode");
    assert_eq!(encoded, data.to_vec());
}

#[test]
fn bench() {
    let data = b"foo:1620649445.3351967|h";
    let m = metric_of(decode(data, 0).expect("failed to decode"));
    assert_eq!(&data[..], encode_metric(&m).expect("failed to encode"));

    let data = b"foo1:12345|c";
    let m = metric_of(decode(data, 0).expect("failed to decode"));
    assert_eq!(&data[..], encode_metric(&m).expect("failed to encode"));

    let data = b"foo2:1234567890|c";
    let m = metric_of(decode(data, 0).expect("failed to decode"));
    assert_eq!(&data[..], encode_metric(&m).expect("failed to encode"));

    let data =
        b"_sc|Redis connection|2|d:1663016695|h:test.example.com|#env:dev|m:Redis connection timed out after 10s|c:123abc";
    let m = service_check_of(decode(data, 0).expect("failed to decode"));
    assert_eq!(&data[..], encode_service_check(&m).expect("failed to encode"));

    let data = b"_sc|Redis connection|2";
    let m = service_check_of(decode(data, 0).expect("failed to decode"));
    assert_eq!(&data[..], encode_service_check(&m).expect("failed to encode"));

    let data = b"_e{21,36}:An exception occurred|Cannot parse CSV file from 10.0.0.17";
    let m = event_of(decode(data, 0).expect("failed to decode"));
    assert_eq!(&data[..], encode_event(&m).expect("failed to encode"));

    let data = b"_e{21,36}:An exception occurred|Cannot parse CSV file from 10.0.0.17|#env:dev,test:testing";
    let m = event_of(decode(data, 0).expect("failed to decode"));
    assert_eq!(&data[..], encode_event(&m).expect("failed to encode"));
}

#[test]
fn codec_object_round_trips() {
    let codec = DogStatsD {};
    assert_eq!(codec.name(), "dogstatsd");
    let data = b"dog:111|g|@0.5|#foo:bar|c:123abc";
    let parsed = codec
        .decode(data, 0)
        .expect("failed to decode")
        .expect("no datagram");
    let encoded = codec.encode(&parsed).expect("failed to encode");
    assert_eq!(encoded, data.to_vec());
}

#[test]
fn invalid_datagrams_are_rejected() {
    // Truncation and missing separators.
    assert!(decode(b"", 0).is_err());
    assert!(decode(b"d", 0).is_err());
    assert!(decode(b"dog", 0).is_err());
    assert!(decode(b"dog:111", 0).is_err());
    // Non-numeric where a number is required.
    assert!(decode(b"dog:abc|g", 0).is_err());
    assert!(decode(b"dog:1|g|@rate", 0).is_err());
    // Unknown type letter.
    assert!(decode(b"dog:1|z", 0).is_err());
    assert!(decode(b"dog:1|gg", 0).is_err());
    // Status outside 0..=3 or malformed.
    assert!(decode(b"_sc|name|7", 0).is_err());
    assert!(decode(b"_sc|name|23", 0).is_err());
    assert!(decode(b"_sc|name", 0).is_err());
    // Non-UTF-8 input.
    assert!(decode(&[0xff, 0x90, 0x20], 0).is_err());
    // Malformed event headers.
    assert!(decode(b"_e21,36:t|x", 0).is_err());
    assert!(decode(b"_e{21:t|x", 0).is_err());
    assert!(decode(b"_e{1,2,3}:t|x", 0).is_err());
    // An event whose text is missing or empty.
    assert!(decode(b"_e{1,1}:t|", 0).is_err());
    assert!(decode(b"_e{1,1}:t||h:x", 0).is_err());
}

#[test]
fn sections_demand_their_separator() {
    // A sigil section without its `:` is a missing required separator.
    assert!(decode(b"dog:1|g|cx", 0).is_err());
    assert!(decode(b"dog:1|g|c", 0).is_err());
    assert!(decode(b"_e{1,1}:t|x|d7:1", 0).is_err());
    assert!(decode(b"_e{1,1}:t|x|hq", 0).is_err());
    assert!(decode(b"_sc|name|2|m_oops", 0).is_err());
    // With the sigil followed by a multi-byte character, the lax reading
    // would store a broken field; it is rejected instead.
    let mut data = b"_e{1,1}:t|x|h".to_vec();
    data.extend_from_slice(&[0xc3, 0xa9]);
    assert!(decode(&data, 0).is_err());
    // The well-formed sections still pass.
    assert!(decode(b"dog:1|g|c:x", 0).is_ok());
    assert!(decode(b"_e{1,1}:t|x|h:q", 0).is_ok());
}

#[test]
fn encode_metric_validates_the_sample_rate() {
    let bad = Metric {
        name: bv(b"dog"),
        values: vec![bv(b"1")],
        kind: MetricKind::Gauge,
        sample_rate: Some(bv(b"fast")),
        tags: None,
        container_id: None,
    };
    assert!(encode_metric(&bad).is_err());
    let codec = DogStatsD {};
    assert!(codec.encode(&Datagram::Metric(bad)).is_err());
    let good = Metric {
        name: bv(b"dog"),
        values: vec![bv(b"1")],
        kind: MetricKind::Gauge,
        sample_rate: Some(bv(b"0.25")),
        tags: None,
        container_id: None,
    };
    assert_eq!(
        encode_metric(&good).expect("failed to encode"),
        b"dog:1|g|@0.25".to_vec()
    );
}

#[test]
fn numeral_texts_survive_verbatim() {
    // The numeral text is carried, not a parsed float, so exotic but
    // legal numerals survive byte for byte.
    for data in [
        &b"dog:0.5|g"[..],
        b"dog:1e5|c",
        b"dog:-3.25|h",
        b"dog:inf:NaN:-inf|d",
        b"dog:00042|s",
    ] {
        if let Ok(Datagram::Metric(m)) = decode(data, 0) {
            assert_eq!(encode_metric(&m).unwrap(), data.to_vec());
        }
    }
    // And these parse successfully.
    assert!(decode(b"dog:1e5|c", 0).is_ok());
    assert!(decode(b"dog:inf:NaN:-inf|d", 0).is_ok());
    assert!(decode(b"dog:0.5::2|g", 0).is_err());
}

#[test]
fn substr_rejects_broken_utf8() {
    // A slice that splits a multi-byte character is refused.
    let e_acute = [0x61u8, 0xc3, 0xa9, 0x62];
    assert!(substr(&e_acute, 0, 2).is_err());
    assert_eq!(substr(&e_acute, 0, 3), Ok(&e_acute[0..3]));
}

#[test]
fn negative_event_lengths_round_trip() {
    let data = b"_e{-1,2}:t|xy";
    let parsed = event_of(decode(data, 0).expect("failed to decode"));
    assert_eq!(parsed.title_length, -1);
    assert_eq!(parsed.text_length, 2);
    let encoded = encode_event(&parsed).expect("failed to encode");
    assert_eq!(encoded, data.to_vec());
}

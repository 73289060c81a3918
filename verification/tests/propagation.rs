use opentelemetry_instrumentation_rdkafka::propagation::{HeaderExtractor, HeaderInjector};
use rdkafka::message::{Header, Headers, OwnedHeaders};

#[test]
fn injector_collects_entries() {
    let mut injector = HeaderInjector::new();
    injector.set("traceparent", "00-abc-def-01".to_string());
    injector.set("tracestate", "foo=bar".to_string());

    let headers = injector.into_owned_headers();
    assert_eq!(headers.count(), 2);

    let h0 = headers.get_as::<str>(0).unwrap();
    assert_eq!(h0.key, "traceparent");
    assert_eq!(h0.value, Some("00-abc-def-01"));

    let h1 = headers.get_as::<str>(1).unwrap();
    assert_eq!(h1.key, "tracestate");
    assert_eq!(h1.value, Some("foo=bar"));
}

#[test]
fn injector_merges_with_existing_headers() {
    let existing = OwnedHeaders::new().insert(Header {
        key: "custom-header",
        value: Some("custom-value"),
    });

    let mut injector = HeaderInjector::new();
    injector.set("traceparent", "00-abc-def-01".to_string());

    let headers = injector.into_owned_headers_with_existing(Some(existing));
    assert_eq!(headers.count(), 2);

    let h0 = headers.get_as::<str>(0).unwrap();
    assert_eq!(h0.key, "custom-header");
    assert_eq!(h0.value, Some("custom-value"));

    let h1 = headers.get_as::<str>(1).unwrap();
    assert_eq!(h1.key, "traceparent");
    assert_eq!(h1.value, Some("00-abc-def-01"));
}

#[test]
fn injector_handles_none_existing_headers() {
    let mut injector = HeaderInjector::new();
    injector.set("traceparent", "00-abc-def-01".to_string());

    let headers = injector.into_owned_headers_with_existing(None);
    assert_eq!(headers.count(), 1);
}

#[test]
fn empty_injector_gives_no_headers() {
    let injector = HeaderInjector::new();
    let headers = injector.into_owned_headers();
    assert_eq!(headers.count(), 0);
}

#[test]
fn merge_keeps_existing_headers_without_value() {
    let existing = OwnedHeaders::new()
        .insert(Header { key: "first", value: Some("1") })
        .insert::<str>(Header { key: "empty", value: None })
        .insert(Header { key: "last", value: Some("") });

    let mut injector = HeaderInjector::new();
    injector.set("traceparent", "tp".to_string());
    injector.set("tracestate", "ts".to_string());

    let headers = injector.into_owned_headers_with_existing(Some(existing));
    assert_eq!(headers.count(), 5);
    let keys: Vec<&str> = (0..5).map(|i| headers.get_as::<str>(i).unwrap().key).collect();
    assert_eq!(keys, vec!["first", "empty", "last", "traceparent", "tracestate"]);
    assert_eq!(headers.get_as::<str>(0).unwrap().value, Some("1"));
    assert_eq!(headers.get_as::<str>(1).unwrap().value, None);
    assert_eq!(headers.get_as::<str>(2).unwrap().value, Some(""));
    assert_eq!(headers.get_as::<str>(4).unwrap().value, Some("ts"));
}

#[test]
fn merge_with_only_a_valueless_header() {
    let existing = OwnedHeaders::new().insert::<str>(Header { key: "flag", value: None });
    let headers = HeaderInjector::new().into_owned_headers_with_existing(Some(existing));
    assert_eq!(headers.count(), 1);
    let h = headers.get_as::<str>(0).unwrap();
    assert_eq!(h.key, "flag");
    assert_eq!(h.value, None);
}

#[test]
fn extractor_over_owned_headers() {
    let mut injector = HeaderInjector::new();
    injector.set("traceparent", "00-abc-def-01".to_string());
    let headers = injector.into_owned_headers();
    let extractor = HeaderExtractor::for_owned(&headers);
    assert_eq!(extractor.get("traceparent"), Some("00-abc-def-01"));
    assert_eq!(extractor.keys(), vec!["traceparent"]);
}

#[test]
fn merge_keeps_binary_values_of_existing_headers() {
    let bytes: &[u8] = &[0xff, 0x00, 0x7f];
    let existing = OwnedHeaders::new().insert(Header { key: "bin", value: Some(bytes) });
    let injector = HeaderInjector::new();
    let headers = injector.into_owned_headers_with_existing(Some(existing));
    assert_eq!(headers.count(), 1);
    let h = headers.get_as::<[u8]>(0).unwrap();
    assert_eq!(h.key, "bin");
    assert_eq!(h.value, Some(bytes));
}

#[test]
fn injected_key_is_cut_at_nul() {
    let mut injector = HeaderInjector::new();
    injector.set("trace\0parent", "v".to_string());
    let headers = injector.into_owned_headers();
    assert_eq!(headers.get_as::<str>(0).unwrap().key, "trace");
}

#[test]
fn extractor_reads_back_injected_field() {
    let existing = OwnedHeaders::new().insert(Header {
        key: "custom-header",
        value: Some("custom-value"),
    });
    let mut injector = HeaderInjector::new();
    injector.set("traceparent", "00-abc-def-01".to_string());
    injector.set("traceparent", "later".to_string());
    let headers = injector.into_owned_headers_with_existing(Some(existing));

    let extractor = HeaderExtractor::new(headers.as_borrowed());
    assert_eq!(extractor.get("traceparent"), Some("00-abc-def-01"));
    assert_eq!(extractor.get("custom-header"), Some("custom-value"));
    assert_eq!(extractor.get("tracestate"), None);
    assert_eq!(
        extractor.keys(),
        vec!["custom-header", "traceparent", "traceparent"]
    );
}

#[test]
fn extractor_skips_values_that_are_not_utf8() {
    let bad: &[u8] = &[0xff, 0xfe];
    let headers = OwnedHeaders::new()
        .insert(Header { key: "k", value: Some(bad) })
        .insert(Header { key: "k", value: Some("good") });
    let extractor = HeaderExtractor::new(headers.as_borrowed());
    assert_eq!(extractor.get("k"), Some("good"));
}

#[test]
fn extractor_stops_at_header_without_value() {
    let headers = OwnedHeaders::new()
        .insert::<str>(Header { key: "k", value: None })
        .insert(Header { key: "k", value: Some("later") });
    let extractor = HeaderExtractor::new(headers.as_borrowed());
    assert_eq!(extractor.get("k"), None);
    assert_eq!(extractor.keys(), vec!["k", "k"]);
}

#[test]
fn extractor_on_empty_headers() {
    let headers = OwnedHeaders::new();
    let extractor = HeaderExtractor::new(headers.as_borrowed());
    assert_eq!(extractor.get("traceparent"), None);
    assert!(extractor.keys().is_empty());
}

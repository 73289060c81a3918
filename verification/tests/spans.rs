use opentelemetry_instrumentation_rdkafka::consumer::receive_span_plan;
use opentelemetry_instrumentation_rdkafka::producer::{publish_completion, publish_span_plan, SpanCompletion};
use opentelemetry_instrumentation_rdkafka::semantic::{Attribute, AttributeValue, SpanRole};

fn pairs(attrs: &[Attribute]) -> Vec<(String, String)> {
    attrs.iter().map(|a| (a.key.clone(), a.value.as_str())).collect()
}

fn owned(v: &[(&str, &str)]) -> Vec<(String, String)> {
    v.iter().map(|(k, v)| (k.to_string(), v.to_string())).collect()
}

#[test]
fn publish_plan_with_key_partition_and_payload() {
    let plan = publish_span_plan("orders", Some(b"key-1"), Some(3), true);
    assert_eq!(plan.name, "orders publish");
    assert!(matches!(plan.role, SpanRole::Producer));
    assert!(!plan.link_to_producer);
    assert_eq!(
        pairs(&plan.attributes),
        owned(&[
            ("messaging.system", "kafka"),
            ("messaging.destination.name", "orders"),
            ("messaging.operation.type", "publish"),
            ("messaging.kafka.message.key", "key-1"),
            ("messaging.kafka.destination.partition", "3"),
        ])
    );
    assert!(matches!(plan.attributes[4].value, AttributeValue::I64(3)));
}

#[test]
fn publish_plan_for_tombstone_without_key() {
    let plan = publish_span_plan("orders", None, None, false);
    assert_eq!(
        pairs(&plan.attributes),
        owned(&[
            ("messaging.system", "kafka"),
            ("messaging.destination.name", "orders"),
            ("messaging.operation.type", "publish"),
            ("messaging.kafka.message.tombstone", "true"),
        ])
    );
    assert!(matches!(plan.attributes[3].value, AttributeValue::Bool(true)));
}

#[test]
fn publish_plan_skips_key_that_is_not_utf8() {
    let plan = publish_span_plan("t", Some(&[0xc3, 0x28]), None, true);
    assert_eq!(plan.attributes.len(), 3);
}

#[test]
fn receive_plan_links_only_to_valid_context() {
    let plan = receive_span_plan("orders", "group-a", 2, 41, Some("k".as_bytes()), true);
    assert_eq!(plan.name, "orders receive");
    assert!(matches!(plan.role, SpanRole::Consumer));
    assert!(plan.link_to_producer);
    assert_eq!(
        pairs(&plan.attributes),
        owned(&[
            ("messaging.system", "kafka"),
            ("messaging.destination.name", "orders"),
            ("messaging.operation.type", "receive"),
            ("messaging.kafka.consumer.group", "group-a"),
            ("messaging.kafka.destination.partition", "2"),
            ("messaging.kafka.message.offset", "41"),
            ("messaging.kafka.message.key", "k"),
        ])
    );
    let unlinked = receive_span_plan("orders", "group-a", 2, -1001, None, false);
    assert!(!unlinked.link_to_producer);
    assert_eq!(unlinked.attributes.len(), 6);
    assert_eq!(unlinked.attributes[5].value.as_str(), "-1001");
}

#[test]
fn completion_of_delivered_message() {
    match publish_completion(Ok((5, 1234))) {
        SpanCompletion::Delivered { attributes } => {
            assert_eq!(
                pairs(&attributes),
                owned(&[
                    ("messaging.kafka.destination.partition", "5"),
                    ("messaging.kafka.message.offset", "1234"),
                ])
            );
        }
        SpanCompletion::Failed { .. } => panic!("expected a delivery"),
    }
}

#[test]
fn completion_of_failed_send() {
    match publish_completion(Err("Message production error".to_string())) {
        SpanCompletion::Failed { status_description, event_name, event_attributes } => {
            assert_eq!(status_description, "Message production error");
            assert_eq!(event_name, "exception");
            assert_eq!(
                pairs(&event_attributes),
                owned(&[
                    ("exception.type", "KafkaError"),
                    ("exception.message", "Message production error"),
                ])
            );
        }
        SpanCompletion::Delivered { .. } => panic!("expected a failure"),
    }
}

use opentelemetry_instrumentation_rdkafka::semantic::{
    base_attributes, span_name, AttributeValue, INSTRUMENTATION_NAME,
    MESSAGING_BATCH_MESSAGE_COUNT, MESSAGING_CLIENT_ID, MESSAGING_DESTINATION_NAME,
    MESSAGING_KAFKA_CONSUMER_GROUP, MESSAGING_KAFKA_DESTINATION_PARTITION,
    MESSAGING_KAFKA_MESSAGE_KEY, MESSAGING_KAFKA_MESSAGE_OFFSET, MESSAGING_KAFKA_MESSAGE_TOMBSTONE,
    MESSAGING_MESSAGE_BODY_SIZE, MESSAGING_MESSAGE_ID, MESSAGING_OPERATION_TYPE, MESSAGING_SYSTEM,
};

#[test]
fn base_attributes_returns_system_destination_and_operation() {
    let attrs = base_attributes("my-topic", "publish");
    assert_eq!(attrs.len(), 3);
    assert_eq!(attrs[0].key.as_str(), MESSAGING_SYSTEM);
    assert_eq!(attrs[0].value.as_str(), "kafka");
    assert_eq!(attrs[1].key.as_str(), MESSAGING_DESTINATION_NAME);
    assert_eq!(attrs[1].value.as_str(), "my-topic");
    assert_eq!(attrs[2].key.as_str(), MESSAGING_OPERATION_TYPE);
    assert_eq!(attrs[2].value.as_str(), "publish");
}

#[test]
fn attribute_constants_follow_the_conventions() {
    assert_eq!(MESSAGING_CLIENT_ID, "messaging.client_id");
    assert_eq!(MESSAGING_MESSAGE_ID, "messaging.message.id");
    assert_eq!(MESSAGING_MESSAGE_BODY_SIZE, "messaging.message.body.size");
    assert_eq!(MESSAGING_BATCH_MESSAGE_COUNT, "messaging.batch.message_count");
    assert_eq!(MESSAGING_KAFKA_DESTINATION_PARTITION, "messaging.kafka.destination.partition");
    assert_eq!(MESSAGING_KAFKA_MESSAGE_OFFSET, "messaging.kafka.message.offset");
    assert_eq!(MESSAGING_KAFKA_CONSUMER_GROUP, "messaging.kafka.consumer.group");
    assert_eq!(MESSAGING_KAFKA_MESSAGE_KEY, "messaging.kafka.message.key");
    assert_eq!(MESSAGING_KAFKA_MESSAGE_TOMBSTONE, "messaging.kafka.message.tombstone");
    assert_eq!(INSTRUMENTATION_NAME, "opentelemetry-instrumentation-rdkafka");
}

#[test]
fn value_text_of_each_kind() {
    assert_eq!(AttributeValue::Str("x y".to_string()).as_str(), "x y");
    assert_eq!(AttributeValue::I64(0).as_str(), "0");
    assert_eq!(AttributeValue::I64(7).as_str(), "7");
    assert_eq!(AttributeValue::I64(1234567890).as_str(), "1234567890");
    assert_eq!(AttributeValue::I64(-42).as_str(), "-42");
    assert_eq!(AttributeValue::I64(i64::MIN).as_str(), i64::MIN.to_string());
    assert_eq!(AttributeValue::I64(i64::MAX).as_str(), i64::MAX.to_string());
    assert_eq!(AttributeValue::Bool(true).as_str(), "true");
    assert_eq!(AttributeValue::Bool(false).as_str(), "false");
}

#[test]
fn span_name_joins_topic_and_operation() {
    assert_eq!(span_name("orders", "publish"), "orders publish");
    assert_eq!(span_name("", "receive"), " receive");
}

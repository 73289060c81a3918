//! The decisions of the traced receive: the receive span that a message gets.
use crate::semantic::{
    MESSAGING_DESTINATION_NAME, MESSAGING_KAFKA_MESSAGE_KEY, MESSAGING_OPERATION_TYPE,
    MESSAGING_SYSTEM, base_attributes, base_attributes_spec, int_attr, int_attribute, key_attribute_spec,
    optional_bytes, push_key_attribute, span_name, span_name_spec, string_attr, string_attribute,
    AttributeView, SpanPlan, SpanPlanView, SpanRole, MESSAGING_KAFKA_CONSUMER_GROUP,
    MESSAGING_KAFKA_DESTINATION_PARTITION, MESSAGING_KAFKA_MESSAGE_OFFSET,
};
use vstd::prelude::*;
use vstd::utf8::*;

verus! {

/// The attributes of a receive span, in order: the base attributes with
/// operation `receive`; the consumer group; the partition; the offset; the
/// message key when it is valid UTF-8.
pub open spec fn receive_attributes_spec(
    topic: Seq<char>,
    group_id: Seq<char>,
    partition: i32,
    offset: i64,
    key: Option<Seq<u8>>,
) -> Seq<AttributeView> {
    base_attributes_spec(topic, "receive"@) + seq![
        string_attribute(MESSAGING_KAFKA_CONSUMER_GROUP@, group_id),
        int_attribute(MESSAGING_KAFKA_DESTINATION_PARTITION@, partition as i64),
        int_attribute(MESSAGING_KAFKA_MESSAGE_OFFSET@, offset),
    ] + key_attribute_spec(key)
}

/// The span that receiving a message records: named `{topic} receive`, of
/// the consumer role, with the receive attributes, linked to the producer's
/// span context exactly when the message carried a valid one.
pub fn receive_span_plan(
    topic: &str,
    group_id: &str,
    partition: i32,
    offset: i64,
    key: Option<&[u8]>,
    producer_context_valid: bool,
) -> (plan: SpanPlan)
    ensures
        plan@ == (SpanPlanView {
            name: span_name_spec(topic@, "receive"@),
            role: SpanRole::Consumer,
            attributes: receive_attributes_spec(
                topic@,
                group_id@,
                partition,
                offset,
                optional_bytes(key),
            ),
            link_to_producer: producer_context_valid,
        }),
{
    let mut attributes = base_attributes(topic, "receive");
    attributes.push(string_attr(MESSAGING_KAFKA_CONSUMER_GROUP, group_id));
    attributes.push(int_attr(MESSAGING_KAFKA_DESTINATION_PARTITION, partition as i64));
    attributes.push(int_attr(MESSAGING_KAFKA_MESSAGE_OFFSET, offset));
    let ghost before_key = attributes.deep_view();
    push_key_attribute(&mut attributes, key);
    proof {
        assert(before_key =~= base_attributes_spec(topic@, "receive"@) + seq![
            string_attribute(MESSAGING_KAFKA_CONSUMER_GROUP@, group_id@),
            int_attribute(MESSAGING_KAFKA_DESTINATION_PARTITION@, partition as i64),
            int_attribute(MESSAGING_KAFKA_MESSAGE_OFFSET@, offset),
        ]);
    }
    SpanPlan {
        name: span_name(topic, "receive"),
        role: SpanRole::Consumer,
        attributes,
        link_to_producer: producer_context_valid,
    }
}

/// A receive span's attributes: `messaging.system` = "kafka", the destination
/// (the topic) and the operation "receive"; then the consumer group, the
/// partition and the offset, for every partition and offset; then the message
/// key exactly when the message has a key that is valid UTF-8.
pub proof fn law_receive_attributes(
    topic: Seq<char>,
    group_id: Seq<char>,
    partition: i32,
    offset: i64,
    key: Option<Seq<u8>>,
)
    ensures
        ({
            let a = receive_attributes_spec(topic, group_id, partition, offset, key);
            let has_key = key matches Some(k) && valid_utf8(k);
            &&& a.len() == if has_key { 7int } else { 6int }
            &&& a[0] == string_attribute(MESSAGING_SYSTEM@, "kafka"@)
            &&& a[1] == string_attribute(MESSAGING_DESTINATION_NAME@, topic)
            &&& a[2] == string_attribute(MESSAGING_OPERATION_TYPE@, "receive"@)
            &&& a[3] == string_attribute(MESSAGING_KAFKA_CONSUMER_GROUP@, group_id)
            &&& a[4] == int_attribute(MESSAGING_KAFKA_DESTINATION_PARTITION@, partition as i64)
            &&& a[5] == int_attribute(MESSAGING_KAFKA_MESSAGE_OFFSET@, offset)
            &&& (has_key ==> a[6] == string_attribute(
                MESSAGING_KAFKA_MESSAGE_KEY@,
                decode_utf8(key->0),
            ))
        }),
{
}

} // verus!

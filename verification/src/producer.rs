//! The decisions of the traced send: the publish span that a record gets,
//! and what the span records once the broker has answered.
use crate::semantic::{
    MESSAGING_DESTINATION_NAME, MESSAGING_KAFKA_MESSAGE_KEY, MESSAGING_OPERATION_TYPE,
    MESSAGING_SYSTEM, base_attributes, base_attributes_spec, bool_attr, bool_attribute, int_attr, int_attribute,
    key_attribute_spec, optional_bytes, push_key_attribute, span_name, span_name_spec,
    string_attr, string_attribute, Attribute, AttributeView, SpanPlan, SpanPlanView, SpanRole,
    MESSAGING_KAFKA_DESTINATION_PARTITION, MESSAGING_KAFKA_MESSAGE_OFFSET,
    MESSAGING_KAFKA_MESSAGE_TOMBSTONE,
};
use vstd::prelude::*;
use vstd::utf8::*;

verus! {

/// The attributes of a publish span, in order: the base attributes with
/// operation `publish`; the message key when it is valid UTF-8; the partition
/// when the record names one; `tombstone = true` when the record has no payload.
pub open spec fn publish_attributes_spec(
    topic: Seq<char>,
    key: Option<Seq<u8>>,
    partition: Option<i32>,
    has_payload: bool,
) -> Seq<AttributeView> {
    base_attributes_spec(topic, "publish"@) + key_attribute_spec(key) + match partition {
        Some(p) => seq![int_attribute(MESSAGING_KAFKA_DESTINATION_PARTITION@, p as i64)],
        None => Seq::<AttributeView>::empty(),
    } + if has_payload {
        Seq::<AttributeView>::empty()
    } else {
        seq![bool_attribute(MESSAGING_KAFKA_MESSAGE_TOMBSTONE@, true)]
    }
}

/// The span that sending a record starts: named `{topic} publish`, of the
/// producer role, with the publish attributes, and with no link.
pub fn publish_span_plan(
    topic: &str,
    key: Option<&[u8]>,
    partition: Option<i32>,
    has_payload: bool,
) -> (plan: SpanPlan)
    ensures
        plan@ == (SpanPlanView {
            name: span_name_spec(topic@, "publish"@),
            role: SpanRole::Producer,
            attributes: publish_attributes_spec(topic@, optional_bytes(key), partition, has_payload),
            link_to_producer: false,
        }),
{
    let mut attributes = base_attributes(topic, "publish");
    push_key_attribute(&mut attributes, key);
    let ghost after_key = attributes.deep_view();
    if let Some(partition) = partition {
        attributes.push(int_attr(MESSAGING_KAFKA_DESTINATION_PARTITION, partition as i64));
    }
    let ghost after_partition = attributes.deep_view();
    if !has_payload {
        attributes.push(bool_attr(MESSAGING_KAFKA_MESSAGE_TOMBSTONE, true));
    }
    proof {
        assert(after_partition =~= after_key + match partition {
            Some(p) => seq![int_attribute(MESSAGING_KAFKA_DESTINATION_PARTITION@, p as i64)],
            None => Seq::<AttributeView>::empty(),
        });
        assert(attributes.deep_view() =~= publish_attributes_spec(
            topic@,
            optional_bytes(key),
            partition,
            has_payload,
        ));
    }
    SpanPlan {
        name: span_name(topic, "publish"),
        role: SpanRole::Producer,
        attributes,
        link_to_producer: false,
    }
}

/// What a publish span records once the send has finished.
pub enum SpanCompletion {
    /// The broker stored the message: attributes to set on the span.
    Delivered { attributes: Vec<Attribute> },
    /// The send failed: an error status with this description, and an event
    /// with this name and these attributes.
    Failed { status_description: String, event_name: String, event_attributes: Vec<Attribute> },
}

pub enum SpanCompletionView {
    Delivered { attributes: Seq<AttributeView> },
    Failed {
        status_description: Seq<char>,
        event_name: Seq<char>,
        event_attributes: Seq<AttributeView>,
    },
}

impl View for SpanCompletion {
    type V = SpanCompletionView;

    open spec fn view(&self) -> SpanCompletionView {
        match self {
            SpanCompletion::Delivered { attributes } => SpanCompletionView::Delivered {
                attributes: attributes.deep_view(),
            },
            SpanCompletion::Failed { status_description, event_name, event_attributes } =>
                SpanCompletionView::Failed {
                status_description: status_description@,
                event_name: event_name@,
                event_attributes: event_attributes.deep_view(),
            },
        }
    }
}

pub open spec fn delivery_view(delivery: Result<(i32, i64), String>) -> Result<(i32, i64), Seq<char>> {
    match delivery {
        Ok(d) => Ok(d),
        Err(e) => Err(e@),
    }
}

/// For a delivered message, the partition and the offset that the broker
/// reports; for a failure, an error status with the error's text and an
/// `exception` event whose type is `KafkaError` and whose message is that text.
pub open spec fn publish_completion_spec(delivery: Result<(i32, i64), Seq<char>>) -> SpanCompletionView {
    match delivery {
        Ok((partition, offset)) => SpanCompletionView::Delivered {
            attributes: seq![
                int_attribute(MESSAGING_KAFKA_DESTINATION_PARTITION@, partition as i64),
                int_attribute(MESSAGING_KAFKA_MESSAGE_OFFSET@, offset),
            ],
        },
        Err(text) => SpanCompletionView::Failed {
            status_description: text,
            event_name: "exception"@,
            event_attributes: seq![
                string_attribute("exception.type"@, "KafkaError"@),
                string_attribute("exception.message"@, text),
            ],
        },
    }
}

/// What the publish span records, given the partition and offset of a
/// delivered message, or the text of the send's error.
pub fn publish_completion(delivery: Result<(i32, i64), String>) -> (c: SpanCompletion)
    ensures
        c@ == publish_completion_spec(delivery_view(delivery)),
{
    match delivery {
        Ok((partition, offset)) => {
            let mut attributes: Vec<Attribute> = Vec::new();
            attributes.push(int_attr(MESSAGING_KAFKA_DESTINATION_PARTITION, partition as i64));
            attributes.push(int_attr(MESSAGING_KAFKA_MESSAGE_OFFSET, offset));
            assert(attributes.deep_view() =~= seq![
                int_attribute(MESSAGING_KAFKA_DESTINATION_PARTITION@, partition as i64),
                int_attribute(MESSAGING_KAFKA_MESSAGE_OFFSET@, offset),
            ]);
            let c = SpanCompletion::Delivered { attributes };
            c
        },
        Err(text) => {
            let mut event_attributes: Vec<Attribute> = Vec::new();
            event_attributes.push(string_attr("exception.type", "KafkaError"));
            event_attributes.push(string_attr("exception.message", text.as_str()));
            assert(event_attributes.deep_view() =~= seq![
                string_attribute("exception.type"@, "KafkaError"@),
                string_attribute("exception.message"@, text@),
            ]);
            let c = SpanCompletion::Failed {
                status_description: text,
                event_name: "exception".to_owned(),
                event_attributes,
            };
            c
        },
    }
}

/// A publish span's attributes: first `messaging.system` = "kafka", the
/// destination (the topic) and the operation "publish"; then the message key
/// exactly when the record has a key that is valid UTF-8; then the partition
/// exactly when the record names one; and `tombstone = true` exactly when the
/// record has no payload, whatever its key and partition.
pub proof fn law_publish_attributes(
    topic: Seq<char>,
    key: Option<Seq<u8>>,
    partition: Option<i32>,
    has_payload: bool,
)
    ensures
        ({
            let a = publish_attributes_spec(topic, key, partition, has_payload);
            let has_key = key matches Some(k) && valid_utf8(k);
            &&& a.len() == 3 + (if has_key { 1int } else { 0 }) + (if partition is Some {
                1int
            } else {
                0
            }) + (if has_payload { 0int } else { 1 })
            &&& a[0] == string_attribute(MESSAGING_SYSTEM@, "kafka"@)
            &&& a[1] == string_attribute(MESSAGING_DESTINATION_NAME@, topic)
            &&& a[2] == string_attribute(MESSAGING_OPERATION_TYPE@, "publish"@)
            &&& (has_key ==> a[3] == string_attribute(
                MESSAGING_KAFKA_MESSAGE_KEY@,
                decode_utf8(key->0),
            ))
            &&& (forall|p: i32|
                a.contains(int_attribute(MESSAGING_KAFKA_DESTINATION_PARTITION@, p as i64))
                    <==> partition == Some(p))
            &&& (a.contains(bool_attribute(MESSAGING_KAFKA_MESSAGE_TOMBSTONE@, true))
                <==> !has_payload)
        }),
{
    let a = publish_attributes_spec(topic, key, partition, has_payload);
    let has_key = key matches Some(k) && valid_utf8(k);
    let b = base_attributes_spec(topic, "publish"@);
    let ka = key_attribute_spec(key);
    let pa = match partition {
        Some(p) => seq![int_attribute(MESSAGING_KAFKA_DESTINATION_PARTITION@, p as i64)],
        None => Seq::<AttributeView>::empty(),
    };
    let ta = if has_payload {
        Seq::<AttributeView>::empty()
    } else {
        seq![bool_attribute(MESSAGING_KAFKA_MESSAGE_TOMBSTONE@, true)]
    };
    assert(a == b + ka + pa + ta);
    let n1: int = (b.len() + ka.len()) as int;
    let n2: int = n1 + pa.len();
    assert forall|i: int| 0 <= i < a.len() implies (i < n2 ==> !((#[trigger] a[i]).value is Bool))
        && (n1 <= i < n2 ==> a[i] == pa[i - n1]) && (i < n1 ==> !(a[i].value is I64)) && (
    n2 <= i ==> a[i] == ta[i - n2]) by {
        if i < b.len() {
            assert(a[i] == b[i]);
        } else if i < n1 {
            assert(a[i] == ka[i - b.len()]);
        } else if i < n2 {
            assert(a[i] == pa[i - n1]);
        } else {
            assert(a[i] == ta[i - n2]);
        }
    }
    assert forall|p: i32|
        a.contains(int_attribute(MESSAGING_KAFKA_DESTINATION_PARTITION@, p as i64)) <==> partition
            == Some(p) by {
        let x = int_attribute(MESSAGING_KAFKA_DESTINATION_PARTITION@, p as i64);
        if partition == Some(p) {
            assert(a[n1] == x);
        }
        if a.contains(x) {
            let i = choose|i: int| 0 <= i < a.len() && a[i] == x;
            assert(n1 <= i < n2);
            assert(pa[i - n1] == x);
        }
    }
    let t = bool_attribute(MESSAGING_KAFKA_MESSAGE_TOMBSTONE@, true);
    if !has_payload {
        assert(a[n2] == t);
    }
    if a.contains(t) {
        let i = choose|i: int| 0 <= i < a.len() && a[i] == t;
        assert(n2 <= i);
    }
    if has_key {
        assert(a[3] == ka[0]);
    }
}

/// What a publish span records: for a delivered message, the delivered
/// partition and offset and nothing else, for every partition and offset;
/// for a failure, an error status whose description is the error's text and
/// one `exception` event of type `KafkaError` whose message is that text.
pub proof fn law_publish_completion(delivery: Result<(i32, i64), Seq<char>>)
    ensures
        delivery matches Ok((p, o)) ==> publish_completion_spec(delivery) matches SpanCompletionView::Delivered { attributes }
            && attributes.len() == 2 && attributes[0] == int_attribute(
            MESSAGING_KAFKA_DESTINATION_PARTITION@,
            p as i64,
        ) && attributes[1] == int_attribute(MESSAGING_KAFKA_MESSAGE_OFFSET@, o),
        delivery matches Err(text) ==> publish_completion_spec(delivery) matches SpanCompletionView::Failed {
            status_description,
            event_name,
            event_attributes,
        } && status_description == text && event_name == "exception"@ && event_attributes.len()
            == 2 && event_attributes[0] == string_attribute("exception.type"@, "KafkaError"@)
            && event_attributes[1] == string_attribute("exception.message"@, text),
{
}

} // verus!

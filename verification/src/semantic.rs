//! OpenTelemetry Messaging Semantic Conventions for Kafka: the attribute
//! names, the attributes that every messaging span carries, and the plan of a
//! span that the producer and the consumer hand to the tracer.
use vstd::prelude::*;
use vstd::string::StringExecFns;
use vstd::string::StringSliceAdditionalSpecFns;
use vstd::utf8::*;

verus! {

// Core attributes
pub const MESSAGING_SYSTEM: &'static str = "messaging.system";

pub const MESSAGING_DESTINATION_NAME: &'static str = "messaging.destination.name";

pub const MESSAGING_OPERATION_TYPE: &'static str = "messaging.operation.type";

pub const MESSAGING_CLIENT_ID: &'static str = "messaging.client_id";

pub const MESSAGING_MESSAGE_ID: &'static str = "messaging.message.id";

pub const MESSAGING_MESSAGE_BODY_SIZE: &'static str = "messaging.message.body.size";

pub const MESSAGING_BATCH_MESSAGE_COUNT: &'static str = "messaging.batch.message_count";

// Kafka-specific attributes
pub const MESSAGING_KAFKA_DESTINATION_PARTITION: &'static str =
    "messaging.kafka.destination.partition";

pub const MESSAGING_KAFKA_MESSAGE_OFFSET: &'static str = "messaging.kafka.message.offset";

pub const MESSAGING_KAFKA_CONSUMER_GROUP: &'static str = "messaging.kafka.consumer.group";

pub const MESSAGING_KAFKA_MESSAGE_KEY: &'static str = "messaging.kafka.message.key";

pub const MESSAGING_KAFKA_MESSAGE_TOMBSTONE: &'static str = "messaging.kafka.message.tombstone";

/// The name under which the producer and the consumer ask for a tracer.
pub const INSTRUMENTATION_NAME: &'static str = "opentelemetry-instrumentation-rdkafka";

/// The value of a span attribute.
pub enum AttributeValue {
    Str(String),
    I64(i64),
    Bool(bool),
}

pub enum ValueView {
    Str(Seq<char>),
    I64(i64),
    Bool(bool),
}

impl View for AttributeValue {
    type V = ValueView;

    open spec fn view(&self) -> ValueView {
        match self {
            AttributeValue::Str(s) => ValueView::Str(s@),
            AttributeValue::I64(i) => ValueView::I64(*i),
            AttributeValue::Bool(b) => ValueView::Bool(*b),
        }
    }
}

/// The decimal digits of a natural number, most significant first.
pub open spec fn decimal_digits(n: nat) -> Seq<char>
    decreases n,
{
    if n < 10 {
        seq![digit_char(n)]
    } else {
        decimal_digits(n / 10) + seq![digit_char(n % 10)]
    }
}

pub open spec fn digit_char(d: nat) -> char {
    (('0' as u32) + d) as char
}

/// The decimal text of an integer: a minus sign before the digits of a negative one.
pub open spec fn decimal_text(i: int) -> Seq<char> {
    if i < 0 {
        seq!['-'] + decimal_digits((-i) as nat)
    } else {
        decimal_digits(i as nat)
    }
}

/// The text of an attribute value: a string as it is, an integer in
/// decimal, a boolean as `true` or `false`.
pub open spec fn value_text(v: ValueView) -> Seq<char> {
    match v {
        ValueView::Str(s) => s,
        ValueView::I64(i) => decimal_text(i as int),
        ValueView::Bool(b) => if b {
            seq!['t', 'r', 'u', 'e']
        } else {
            seq!['f', 'a', 'l', 's', 'e']
        },
    }
}

/// Calls `String::push`, which appends one character.
#[verifier::external_body]
fn push_char(s: &mut String, c: char)
    ensures
        final(s)@ == old(s)@.push(c),
{
    s.push(c)
}

proof fn lemma_digit_char(d: nat)
    requires
        d < 10,
    ensures
        digit_char(d) as u32 == 48 + d,
{
    assert(('0' as u32) == 48);
}

impl AttributeValue {
    /// The value as text.
    pub fn as_str(&self) -> (r: String)
        ensures
            r@ == value_text(self@),
    {
        match self {
            AttributeValue::Str(s) => s.clone(),
            AttributeValue::I64(i) => i64_text(*i),
            AttributeValue::Bool(b) => {
                let mut r = String::new();
                if *b {
                    push_char(&mut r, 't');
                    push_char(&mut r, 'r');
                    push_char(&mut r, 'u');
                    push_char(&mut r, 'e');
                } else {
                    push_char(&mut r, 'f');
                    push_char(&mut r, 'a');
                    push_char(&mut r, 'l');
                    push_char(&mut r, 's');
                    push_char(&mut r, 'e');
                }
                assert(r@ =~= value_text(self@));
                r
            },
        }
    }
}

/// The decimal text of `i`.
fn i64_text(i: i64) -> (r: String)
    ensures
        r@ == decimal_text(i as int),
{
    let wide: i128 = i as i128;
    let magnitude: u64 = if wide < 0 {
        (0 - wide) as u64
    } else {
        wide as u64
    };
    // digits from the least significant one
    let mut rev: Vec<char> = Vec::new();
    let mut n: u64 = magnitude;
    assert(decimal_digits(magnitude as nat) =~= decimal_digits(n as nat) + rev@.reverse());
    loop
        invariant_except_break
            decimal_digits(magnitude as nat) == decimal_digits(n as nat) + rev@.reverse(),
        ensures
            decimal_digits(magnitude as nat) == rev@.reverse(),
        decreases n,
    {
        let d: u64 = n % 10;
        proof {
            lemma_digit_char(d as nat);
        }
        let c: char = char_of_digit(d);
        let ghost old_rev = rev@;
        rev.push(c);
        proof {
            assert(rev@.reverse() =~= seq![c] + old_rev.reverse());
        }
        if n < 10 {
            proof {
                assert(decimal_digits(n as nat) == seq![digit_char(n as nat)]);
                assert(decimal_digits(magnitude as nat) =~= rev@.reverse());
            }
            break ;
        }
        proof {
            assert(decimal_digits(n as nat) == decimal_digits(n as nat / 10) + seq![
                digit_char(n as nat % 10),
            ]);
            assert(decimal_digits(n as nat / 10) + rev@.reverse() =~= decimal_digits(n as nat)
                + old_rev.reverse());
        }
        n = n / 10;
    }
    let mut r = String::new();
    if wide < 0 {
        push_char(&mut r, '-');
    }
    let ghost start = r@;
    let mut k: usize = rev.len();
    while k > 0
        invariant
            k <= rev@.len(),
            r@ == start + rev@.reverse().take(rev@.len() - k),
        decreases k,
    {
        k = k - 1;
        let c = rev[k];
        let ghost before = r@;
        push_char(&mut r, c);
        proof {
            assert(rev@.reverse()[rev@.len() - 1 - k] == rev@[k as int]);
            assert(rev@.reverse().take(rev@.len() - k) =~= rev@.reverse().take(
                rev@.len() - 1 - k,
            ).push(c));
        }
    }
    proof {
        assert(rev@.reverse().take(rev@.len() as int) =~= rev@.reverse());
        if wide < 0 {
            assert(start =~= seq!['-']);
            assert((-(i as int)) as nat == magnitude as nat);
        } else {
            assert(start =~= Seq::<char>::empty());
            assert(r@ =~= rev@.reverse());
        }
    }
    r
}

fn char_of_digit(d: u64) -> (c: char)
    requires
        d < 10,
    ensures
        c == digit_char(d as nat),
{
    proof {
        lemma_digit_char(d as nat);
    }
    if d == 0 {
        '0'
    } else if d == 1 {
        '1'
    } else if d == 2 {
        '2'
    } else if d == 3 {
        '3'
    } else if d == 4 {
        '4'
    } else if d == 5 {
        '5'
    } else if d == 6 {
        '6'
    } else if d == 7 {
        '7'
    } else if d == 8 {
        '8'
    } else {
        '9'
    }
}

/// A span attribute: a key and a value.
pub struct Attribute {
    pub key: String,
    pub value: AttributeValue,
}

pub struct AttributeView {
    pub key: Seq<char>,
    pub value: ValueView,
}

impl View for Attribute {
    type V = AttributeView;

    open spec fn view(&self) -> AttributeView {
        AttributeView { key: self.key@, value: self.value@ }
    }
}

impl DeepView for Attribute {
    type V = AttributeView;

    open spec fn deep_view(&self) -> AttributeView {
        self@
    }
}

pub open spec fn string_attribute(key: Seq<char>, value: Seq<char>) -> AttributeView {
    AttributeView { key, value: ValueView::Str(value) }
}

pub open spec fn int_attribute(key: Seq<char>, value: i64) -> AttributeView {
    AttributeView { key, value: ValueView::I64(value) }
}

pub open spec fn bool_attribute(key: Seq<char>, value: bool) -> AttributeView {
    AttributeView { key, value: ValueView::Bool(value) }
}

/// `messaging.system` = "kafka", `messaging.destination.name` = the topic,
/// `messaging.operation.type` = the operation, in that order.
pub open spec fn base_attributes_spec(topic: Seq<char>, operation: Seq<char>) -> Seq<
    AttributeView,
> {
    seq![
        string_attribute(MESSAGING_SYSTEM@, "kafka"@),
        string_attribute(MESSAGING_DESTINATION_NAME@, topic),
        string_attribute(MESSAGING_OPERATION_TYPE@, operation),
    ]
}

/// The message-key attribute: present when there is a key and it is valid
/// UTF-8, holding the text it encodes.
pub open spec fn key_attribute_spec(key: Option<Seq<u8>>) -> Seq<AttributeView> {
    match key {
        Some(k) => if valid_utf8(k) {
            seq![string_attribute(MESSAGING_KAFKA_MESSAGE_KEY@, decode_utf8(k))]
        } else {
            Seq::empty()
        },
        None => Seq::empty(),
    }
}

pub open spec fn optional_bytes(key: Option<&[u8]>) -> Option<Seq<u8>> {
    match key {
        Some(k) => Some(k@),
        None => None,
    }
}

pub(crate) fn string_attr(key: &str, value: &str) -> (a: Attribute)
    ensures
        a@ == string_attribute(key@, value@),
{
    Attribute { key: key.to_owned(), value: AttributeValue::Str(value.to_owned()) }
}

pub(crate) fn int_attr(key: &str, value: i64) -> (a: Attribute)
    ensures
        a@ == int_attribute(key@, value),
{
    Attribute { key: key.to_owned(), value: AttributeValue::I64(value) }
}

pub(crate) fn bool_attr(key: &str, value: bool) -> (a: Attribute)
    ensures
        a@ == bool_attribute(key@, value),
{
    Attribute { key: key.to_owned(), value: AttributeValue::Bool(value) }
}

/// Returns the base attributes common to all messaging spans:
/// `messaging.system`, `messaging.destination.name`, and `messaging.operation.type`.
pub fn base_attributes(topic: &str, operation: &str) -> (attrs: Vec<Attribute>)
    ensures
        attrs.deep_view() == base_attributes_spec(topic@, operation@),
{
    let mut attrs: Vec<Attribute> = Vec::new();
    attrs.push(string_attr(MESSAGING_SYSTEM, "kafka"));
    attrs.push(string_attr(MESSAGING_DESTINATION_NAME, topic));
    attrs.push(string_attr(MESSAGING_OPERATION_TYPE, operation));
    assert(attrs.deep_view() =~= base_attributes_spec(topic@, operation@));
    attrs
}

/// Calls `std::str::from_utf8`: `Some` exactly when the bytes are valid UTF-8.
#[verifier::external_body]
fn utf8_text(bytes: &[u8]) -> (r: Option<&str>)
    ensures
        r is Some <==> valid_utf8(bytes@),
        r matches Some(s) ==> s.spec_bytes() == bytes@,
{
    std::str::from_utf8(bytes).ok()
}

/// Appends the message-key attribute when the key is valid UTF-8.
pub(crate) fn push_key_attribute(attrs: &mut Vec<Attribute>, key: Option<&[u8]>)
    ensures
        final(attrs).deep_view() == old(attrs).deep_view() + key_attribute_spec(optional_bytes(key)),
{
    if let Some(key) = key {
        if let Some(key_str) = utf8_text(key) {
            proof {
                broadcast use encode_utf8_decode_utf8;

                assert(decode_utf8(encode_utf8(key_str@)) == key_str@);
            }
            let ghost before = attrs.deep_view();
            attrs.push(string_attr(MESSAGING_KAFKA_MESSAGE_KEY, key_str));
            assert(attrs.deep_view() =~= before + key_attribute_spec(optional_bytes(Some(key))));
            return ;
        }
    }
    assert(old(attrs).deep_view() + key_attribute_spec(optional_bytes(key)) =~= attrs.deep_view());
}

/// Who emits a span.
pub enum SpanRole {
    Producer,
    Consumer,
}

/// A span to be started and ended: its name, its role, its attributes, and
/// whether it links to the producer's span context that the message carried.
pub struct SpanPlan {
    pub name: String,
    pub role: SpanRole,
    pub attributes: Vec<Attribute>,
    pub link_to_producer: bool,
}

pub struct SpanPlanView {
    pub name: Seq<char>,
    pub role: SpanRole,
    pub attributes: Seq<AttributeView>,
    pub link_to_producer: bool,
}

impl View for SpanPlan {
    type V = SpanPlanView;

    open spec fn view(&self) -> SpanPlanView {
        SpanPlanView {
            name: self.name@,
            role: self.role,
            attributes: self.attributes.deep_view(),
            link_to_producer: self.link_to_producer,
        }
    }
}

/// A span name: the topic, a space, and the operation.
pub open spec fn span_name_spec(topic: Seq<char>, operation: Seq<char>) -> Seq<char> {
    topic + seq![' '] + operation
}

pub fn span_name(topic: &str, operation: &str) -> (name: String)
    ensures
        name@ == span_name_spec(topic@, operation@),
        name@ == topic@ + seq![' '] + operation@,
{
    let mut name = topic.to_owned();
    push_char(&mut name, ' ');
    name.append(operation);
    name
}

/// A span name is the whole topic, one space, and the whole operation, for
/// every topic and operation.
pub proof fn law_span_name(topic: Seq<char>, operation: Seq<char>)
    ensures
        span_name_spec(topic, operation).len() == topic.len() + 1 + operation.len(),
        span_name_spec(topic, operation).take(topic.len() as int) == topic,
        span_name_spec(topic, operation)[topic.len() as int] == ' ',
        span_name_spec(topic, operation).skip(topic.len() as int + 1) == operation,
{
    let n = span_name_spec(topic, operation);
    assert(n.take(topic.len() as int) =~= topic);
    assert(n.skip(topic.len() as int + 1) =~= operation);
}

/// The base attributes are exactly three: the messaging system "kafka", the
/// destination (the topic) and the operation, in that order.
pub proof fn law_base_attributes(topic: Seq<char>, operation: Seq<char>)
    ensures
        base_attributes_spec(topic, operation).len() == 3,
        base_attributes_spec(topic, operation)[0] == string_attribute(MESSAGING_SYSTEM@, "kafka"@),
        base_attributes_spec(topic, operation)[1] == string_attribute(
            MESSAGING_DESTINATION_NAME@,
            topic,
        ),
        base_attributes_spec(topic, operation)[2] == string_attribute(
            MESSAGING_OPERATION_TYPE@,
            operation,
        ),
{
}

/// The number that a text of decimal digits denotes.
pub open spec fn digits_value(digits: Seq<char>) -> int
    decreases digits.len(),
{
    if digits.len() == 0 {
        0
    } else {
        digits_value(digits.drop_last()) * 10 + ((digits.last() as u32) - 48)
    }
}

pub open spec fn is_digit(c: char) -> bool {
    '0' <= c <= '9'
}

/// The decimal digits of `n` are digits, without a leading zero unless `n`
/// is zero, and they denote `n`.
pub proof fn law_decimal_digits(n: nat)
    ensures
        decimal_digits(n).len() >= 1,
        forall|i: int| 0 <= i < decimal_digits(n).len() ==> is_digit(#[trigger] decimal_digits(n)[i]),
        n > 0 ==> decimal_digits(n)[0] != '0',
        n == 0 ==> decimal_digits(n) == seq!['0'],
        digits_value(decimal_digits(n)) == n,
    decreases n,
{
    if n < 10 {
        lemma_digit_char(n);
        assert(decimal_digits(n) == seq![digit_char(n)]);
        assert(seq![digit_char(n)].drop_last() =~= Seq::<char>::empty());
        assert(digits_value(Seq::<char>::empty()) == 0);
        assert(digits_value(seq![digit_char(n)]) == ((digit_char(n) as u32) - 48));
    } else {
        law_decimal_digits(n / 10);
        lemma_digit_char(n % 10);
        let d = decimal_digits(n / 10);
        let s = decimal_digits(n);
        assert(s == d + seq![digit_char(n % 10)]);
        assert(s.drop_last() =~= d);
        assert(s.last() == digit_char(n % 10));
        assert(digits_value(s) == digits_value(d) * 10 + ((digit_char(n % 10) as u32) - 48));
        assert(n == (n / 10) * 10 + n % 10);
        assert(s[0] == d[0]);
        assert forall|i: int| 0 <= i < s.len() implies is_digit(#[trigger] s[i]) by {
            if i < d.len() {
                assert(s[i] == d[i]);
            }
        }
    }
}

/// The text of an integer is a minus sign exactly when it is negative,
/// followed by the decimal digits of its magnitude.
pub proof fn law_decimal_text(i: int)
    ensures
        (decimal_text(i)[0] == '-') <==> i < 0,
        i < 0 ==> decimal_text(i).skip(1) == decimal_digits((-i) as nat),
        i >= 0 ==> decimal_text(i) == decimal_digits(i as nat),
        i >= 0 ==> digits_value(decimal_text(i)) == i,
        i < 0 ==> digits_value(decimal_text(i).skip(1)) == -i,
{
    if i < 0 {
        law_decimal_digits((-i) as nat);
        assert(decimal_text(i).skip(1) =~= decimal_digits((-i) as nat));
    } else {
        law_decimal_digits(i as nat);
        assert(is_digit(decimal_digits(i as nat)[0]));
    }
}

} // verus!

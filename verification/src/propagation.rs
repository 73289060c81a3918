//! Trace-context propagation through Kafka message headers.
//!
//! `HeaderInjector` collects the fields that a text-map propagator writes and
//! turns them into rdkafka `OwnedHeaders`, after any headers the record
//! already carried. `HeaderExtractor` reads fields back from the headers of a
//! received message.
use rdkafka::message::{BorrowedHeaders, Header, Headers, OwnedHeaders};
use vstd::prelude::*;
use vstd::string::StringSliceAdditionalSpecFns;
use vstd::utf8::*;

verus! {

/// One Kafka header as a read of it reports it: the key bytes (librdkafka
/// hands a key back as a C string, so up to its first NUL byte) and the value
/// bytes, with `None` for a header without a value.
pub type HeaderEntry = (Seq<u8>, Option<Seq<u8>>);

#[verifier::external_type_specification]
#[verifier::external_body]
pub struct ExOwnedHeaders(OwnedHeaders);

#[verifier::external_type_specification]
#[verifier::external_body]
pub struct ExBorrowedHeaders(BorrowedHeaders);

/// The headers held by an rdkafka `OwnedHeaders`, in insertion order, as
/// `Headers::get` reports them.
pub uninterp spec fn owned_header_list(headers: OwnedHeaders) -> Seq<HeaderEntry>;

/// The headers of an optional header list; none when it is absent.
pub open spec fn optional_header_list(headers: Option<OwnedHeaders>) -> Seq<HeaderEntry> {
    match headers {
        Some(h) => owned_header_list(h),
        None => Seq::empty(),
    }
}

/// The headers of a received message, in order, as `Headers::get` reports them.
pub uninterp spec fn borrowed_header_list(headers: BorrowedHeaders) -> Seq<HeaderEntry>;

/// The bytes before the first NUL byte. librdkafka keeps a header key as a
/// C string, so a key is read back up to its first NUL.
pub open spec fn until_nul(bytes: Seq<u8>) -> Seq<u8>
    decreases bytes.len(),
{
    if bytes.len() == 0 {
        bytes
    } else if bytes[0] == 0 {
        Seq::empty()
    } else {
        seq![bytes[0]] + until_nul(bytes.drop_first())
    }
}

pub open spec fn has_no_nul(bytes: Seq<u8>) -> bool {
    forall|i: int| 0 <= i < bytes.len() ==> bytes[i] != 0
}

pub open spec fn slice_bytes(value: Option<&[u8]>) -> Option<Seq<u8>> {
    match value {
        Some(v) => Some(v@),
        None => None,
    }
}

pub open spec fn str_bytes(value: Option<&str>) -> Option<Seq<u8>> {
    match value {
        Some(v) => Some(v.spec_bytes()),
        None => None,
    }
}

/// Every key in the list is valid UTF-8; rdkafka panics when it reads any other key.
pub open spec fn keys_are_utf8(list: Seq<HeaderEntry>) -> bool {
    forall|i: int| 0 <= i < list.len() ==> valid_utf8(#[trigger] list[i].0)
}

/// The header that one injected field becomes.
pub open spec fn injected_header(field: (Seq<char>, Seq<char>)) -> HeaderEntry {
    (until_nul(encode_utf8(field.0)), Some(encode_utf8(field.1)))
}

/// The headers that the injected fields become, in the order they were set.
pub open spec fn injected_headers(fields: Seq<(Seq<char>, Seq<char>)>) -> Seq<HeaderEntry> {
    fields.map_values(|f: (Seq<char>, Seq<char>)| injected_header(f))
}

/// The headers of a record after injection: all headers of the record, in
/// order, then the injected fields.
pub open spec fn merged_headers(
    existing: Seq<HeaderEntry>,
    fields: Seq<(Seq<char>, Seq<char>)>,
) -> Seq<HeaderEntry> {
    existing + injected_headers(fields)
}

/// Calls `OwnedHeaders::new_with_capacity`, which returns an empty header
/// list; the capacity only sizes librdkafka's first allocation.
#[verifier::external_body]
fn owned_headers_with_capacity(capacity: usize) -> (headers: OwnedHeaders)
    ensures
        owned_header_list(headers) == Seq::<HeaderEntry>::empty(),
{
    OwnedHeaders::new_with_capacity(capacity)
}

/// Calls `Headers::count` on `OwnedHeaders`: the number of headers held.
#[verifier::external_body]
fn owned_headers_count(headers: &OwnedHeaders) -> (n: usize)
    ensures
        n == owned_header_list(*headers).len(),
{
    headers.count()
}

/// Calls `Headers::get_as::<[u8]>` on `OwnedHeaders`. The conversion to bytes
/// never fails; the key is read as a C string, so it holds no NUL byte. rdkafka
/// panics on an index out of range or on a key that is not UTF-8.
#[verifier::external_body]
fn owned_header_at<'a>(headers: &'a OwnedHeaders, index: usize) -> (r: Result<
    (&'a str, Option<&'a [u8]>),
    (),
>)
    requires
        index < owned_header_list(*headers).len(),
        valid_utf8(owned_header_list(*headers)[index as int].0),
    ensures
        r is Ok,
        r matches Ok((key, value)) ==> {
            &&& key.spec_bytes() == owned_header_list(*headers)[index as int].0
            &&& has_no_nul(key.spec_bytes())
            &&& slice_bytes(value) == owned_header_list(*headers)[index as int].1
        },
{
    match headers.get_as::<[u8]>(index) {
        Ok(header) => Ok((header.key, header.value)),
        Err(e) => Err(e),
    }
}

/// Calls `OwnedHeaders::insert`: the header is appended, with its value or
/// without one; its key is kept up to the first NUL byte.
#[verifier::external_body]
fn owned_headers_insert(headers: OwnedHeaders, key: &str, value: Option<&[u8]>) -> (r:
    OwnedHeaders)
    ensures
        owned_header_list(r) == owned_header_list(headers).push(
            (until_nul(key.spec_bytes()), slice_bytes(value)),
        ),
{
    headers.insert::<[u8]>(Header { key, value })
}

/// Calls `OwnedHeaders::as_borrowed`: a read-only view of the same headers.
#[verifier::external_body]
fn owned_headers_as_borrowed(headers: &OwnedHeaders) -> (r: &BorrowedHeaders)
    ensures
        borrowed_header_list(*r) == owned_header_list(*headers),
{
    headers.as_borrowed()
}

pub proof fn lemma_until_nul_of_no_nul(bytes: Seq<u8>)
    requires
        has_no_nul(bytes),
    ensures
        until_nul(bytes) == bytes,
    decreases bytes.len(),
{
    if bytes.len() > 0 {
        lemma_until_nul_of_no_nul(bytes.drop_first());
        assert(seq![bytes[0]] + bytes.drop_first() =~= bytes);
    }
}

/// The merge keeps every header of the record in place, byte for byte and
/// with its value or none, and puts one header per injected field after them,
/// in the order the fields were set: the field's key and its value, UTF-8
/// encoded, the key cut at its first NUL.
pub proof fn law_merge_keeps_record_headers(
    existing: Seq<HeaderEntry>,
    fields: Seq<(Seq<char>, Seq<char>)>,
)
    ensures
        merged_headers(existing, fields).len() == existing.len() + fields.len(),
        forall|k: int|
            0 <= k < existing.len() ==> #[trigger] merged_headers(existing, fields)[k]
                == existing[k],
        forall|j: int|
            0 <= j < fields.len() ==> #[trigger] merged_headers(existing, fields)[existing.len()
                + j] == (until_nul(encode_utf8(fields[j].0)), Some(encode_utf8(fields[j].1))),
{
    let merged = merged_headers(existing, fields);
    assert forall|j: int| 0 <= j < fields.len() implies #[trigger] merged[existing.len() + j] == (
    until_nul(encode_utf8(fields[j].0)), Some(encode_utf8(fields[j].1))) by {
        assert(merged[existing.len() + j] == injected_headers(fields)[j]);
    }
}

/// Without headers of its own, a record gets exactly the injected fields.
pub proof fn law_merge_without_existing_headers(fields: Seq<(Seq<char>, Seq<char>)>)
    ensures
        merged_headers(Seq::<HeaderEntry>::empty(), fields) == injected_headers(fields),
{
    assert(merged_headers(Seq::<HeaderEntry>::empty(), fields) =~= injected_headers(fields));
}

/// Collects the fields that a text-map propagator injects.
pub struct HeaderInjector {
    entries: Vec<(String, String)>,
}

impl View for HeaderInjector {
    type V = Seq<(Seq<char>, Seq<char>)>;

    closed spec fn view(&self) -> Seq<(Seq<char>, Seq<char>)> {
        self.entries@.map_values(|e: (String, String)| (e.0@, e.1@))
    }
}

impl HeaderInjector {
    /// An injector with no fields.
    pub fn new() -> (r: Self)
        ensures
            r@ == Seq::<(Seq<char>, Seq<char>)>::empty(),
    {
        let r = HeaderInjector { entries: Vec::new() };
        proof {
            assert(r@ =~= Seq::<(Seq<char>, Seq<char>)>::empty());
        }
        r
    }

    /// Records one field, after those recorded before.
    pub fn set(&mut self, key: &str, value: String)
        ensures
            final(self)@ == old(self)@.push((key@, value@)),
    {
        self.entries.push((key.to_owned(), value));
        proof {
            assert(final(self)@ =~= old(self)@.push((key@, value@)));
        }
    }

    /// The number of recorded fields.
    pub fn len(&self) -> (n: usize)
        ensures
            n == self@.len(),
    {
        self.entries.len()
    }

    /// The recorded fields as Kafka headers, in the order they were set.
    pub fn into_owned_headers(self) -> (headers: OwnedHeaders)
        ensures
            owned_header_list(headers) == injected_headers(self@),
    {
        let ghost fields = self@;
        let headers = self.into_owned_headers_with_existing(None);
        proof {
            law_merge_without_existing_headers(fields);
        }
        headers
    }

    /// All headers of `existing`, in order and with their values, followed by
    /// the recorded fields in the order they were set.
    pub fn into_owned_headers_with_existing(self, existing: Option<OwnedHeaders>) -> (headers:
        OwnedHeaders)
        requires
            existing matches Some(h) ==> {
                &&& owned_header_list(h).len() + self@.len() <= usize::MAX
                &&& keys_are_utf8(owned_header_list(h))
            },
        ensures
            owned_header_list(headers) == merged_headers(optional_header_list(existing), self@),
            owned_header_list(headers).len() == optional_header_list(existing).len() + self@.len(),
            forall|k: int|
                0 <= k < optional_header_list(existing).len() ==> #[trigger] owned_header_list(
                    headers,
                )[k] == optional_header_list(existing)[k],
    {
        let ghost old_list = optional_header_list(existing);
        let mut headers = match existing {
            Some(existing) => {
                let count = owned_headers_count(&existing);
                let mut h = owned_headers_with_capacity(count + self.entries.len());
                let mut i: usize = 0;
                proof {
                    assert(old_list.take(0) =~= Seq::<HeaderEntry>::empty());
                }
                while i < count
                    invariant
                        count == owned_header_list(existing).len(),
                        old_list == owned_header_list(existing),
                        keys_are_utf8(old_list),
                        i <= count,
                        owned_header_list(h) == old_list.take(i as int),
                    decreases count - i,
                {
                    if let Ok(header) = owned_header_at(&existing, i) {
                        let (key, value) = header;
                        proof {
                            lemma_until_nul_of_no_nul(key.spec_bytes());
                        }
                        h = owned_headers_insert(h, key, value);
                    }
                    assert(old_list.take(i + 1) =~= old_list.take(i as int).push(old_list[i as int]));
                    i = i + 1;
                }
                assert(old_list.take(count as int) =~= old_list);
                h
            },
            None => owned_headers_with_capacity(self.entries.len()),
        };
        assert(owned_header_list(headers) == old_list);
        let n = self.entries.len();
        let mut j: usize = 0;
        while j < n
            invariant
                n == self.entries.len(),
                j <= n,
                owned_header_list(headers) == old_list + injected_headers(
                    self@.take(j as int),
                ),
            decreases n - j,
        {
            let entry = &self.entries[j];
            let key = entry.0.as_str();
            let value = entry.1.as_str().as_bytes();
            headers = owned_headers_insert(headers, key, Some(value));
            proof {
                assert(self@[j as int] == (entry.0@, entry.1@));
                assert(injected_headers(self@.take(j + 1)) =~= injected_headers(
                    self@.take(j as int),
                ).push(injected_header(self@[j as int])));
                assert(owned_header_list(headers) =~= old_list + injected_headers(
                    self@.take(j + 1),
                ));
            }
            j = j + 1;
        }
        assert(self@.take(n as int) =~= self@);
        proof {
            law_merge_keeps_record_headers(old_list, self@);
        }
        headers
    }
}

/// True when a lookup for `key` stops at this header: the key is equal and
/// the value, if any, is valid UTF-8.
pub open spec fn header_matches(header: HeaderEntry, key: Seq<u8>) -> bool {
    &&& header.0 == key
    &&& header.1 matches Some(v) ==> valid_utf8(v)
}

/// The value that a lookup for `key` finds: that of the first header that
/// matches, decoded as UTF-8; none when that header has no value or when no
/// header matches.
pub open spec fn header_lookup(list: Seq<HeaderEntry>, key: Seq<u8>) -> Option<Seq<char>>
    decreases list.len(),
{
    if list.len() == 0 {
        None
    } else if header_matches(list[0], key) {
        match list[0].1 {
            Some(v) => Some(decode_utf8(v)),
            None => None,
        }
    } else {
        header_lookup(list.drop_first(), key)
    }
}

pub open spec fn str_view(value: Option<&str>) -> Option<Seq<char>> {
    match value {
        Some(v) => Some(v@),
        None => None,
    }
}

/// Calls `Headers::count` on `BorrowedHeaders`: the number of headers.
#[verifier::external_body]
fn borrowed_headers_count(headers: &BorrowedHeaders) -> (n: usize)
    ensures
        n == borrowed_header_list(*headers).len(),
{
    headers.count()
}

/// Calls `Headers::get_as::<str>` on `BorrowedHeaders`. The result is `None`
/// exactly when the value is present and not valid UTF-8. rdkafka panics on an
/// index out of range or on a key that is not UTF-8.
#[verifier::external_body]
fn borrowed_header_as_str<'a>(headers: &'a BorrowedHeaders, index: usize) -> (r: Option<
    (&'a str, Option<&'a str>),
>)
    requires
        index < borrowed_header_list(*headers).len(),
        valid_utf8(borrowed_header_list(*headers)[index as int].0),
    ensures
        r is Some <==> (borrowed_header_list(*headers)[index as int].1 matches Some(v)
            ==> valid_utf8(v)),
        r matches Some((key, value)) ==> {
            &&& key.spec_bytes() == borrowed_header_list(*headers)[index as int].0
            &&& str_bytes(value) == borrowed_header_list(*headers)[index as int].1
        },
{
    match headers.get_as::<str>(index) {
        Ok(header) => Some((header.key, header.value)),
        Err(_) => None,
    }
}

/// Calls `Headers::get` on `BorrowedHeaders` and returns the key. rdkafka
/// panics on an index out of range or on a key that is not UTF-8.
#[verifier::external_body]
fn borrowed_header_key<'a>(headers: &'a BorrowedHeaders, index: usize) -> (key: &'a str)
    requires
        index < borrowed_header_list(*headers).len(),
        valid_utf8(borrowed_header_list(*headers)[index as int].0),
    ensures
        key.spec_bytes() == borrowed_header_list(*headers)[index as int].0,
{
    headers.get(index).key
}

/// Calls `<str as PartialEq>::eq`.
#[verifier::external_body]
fn str_eq(a: &str, b: &str) -> (r: bool)
    ensures
        r == (a@ == b@),
{
    a == b
}

/// Reads the fields that a text-map propagator extracts from the headers of a
/// received message.
pub struct HeaderExtractor<'a> {
    headers: &'a BorrowedHeaders,
}

impl<'a> HeaderExtractor<'a> {
    /// The headers that this extractor reads.
    pub closed spec fn header_list(&self) -> Seq<HeaderEntry> {
        borrowed_header_list(*self.headers)
    }

    pub fn new(headers: &'a BorrowedHeaders) -> (r: Self)
        ensures
            r.header_list() == borrowed_header_list(*headers),
    {
        HeaderExtractor { headers }
    }

    /// An extractor over the headers of an `OwnedHeaders`, read through
    /// `OwnedHeaders::as_borrowed`.
    pub fn for_owned(headers: &'a OwnedHeaders) -> (r: Self)
        ensures
            r.header_list() == owned_header_list(*headers),
    {
        HeaderExtractor { headers: owned_headers_as_borrowed(headers) }
    }

    /// The value of the first header whose key is `key` and whose value, if
    /// any, is valid UTF-8; `None` when that header has no value or when there
    /// is no such header.
    pub fn get(&self, key: &str) -> (r: Option<&'a str>)
        requires
            keys_are_utf8(self.header_list()),
        ensures
            str_view(r) == header_lookup(self.header_list(), encode_utf8(key@)),
    {
        let ghost list = self.header_list();
        let ghost target = encode_utf8(key@);
        let count = borrowed_headers_count(self.headers);
        let mut i: usize = 0;
        assert(list.skip(0) =~= list);
        while i < count
            invariant
                list == borrowed_header_list(*self.headers),
                count == list.len(),
                keys_are_utf8(list),
                target == encode_utf8(key@),
                i <= count,
                header_lookup(list, target) == header_lookup(list.skip(i as int), target),
            decreases count - i,
        {
            proof {
                assert(list.skip(i as int).drop_first() =~= list.skip(i + 1));
                assert(list.skip(i as int)[0] == list[i as int]);
            }
            if let Some(header) = borrowed_header_as_str(self.headers, i) {
                let (k, v) = header;
                let same = str_eq(k, key);
                proof {
                    lemma_encode_utf8_injective(k@, key@);
                }
                if same {
                    proof {
                        if let Some(s) = v {
                            broadcast use encode_utf8_decode_utf8;
                            assert(decode_utf8(encode_utf8(s@)) == s@);
                        }
                    }
                    return v;
                }
            }
            i = i + 1;
        }
        proof {
            assert(list.skip(count as int) =~= Seq::<HeaderEntry>::empty());
        }
        None
    }

    /// The keys of all headers, in order.
    pub fn keys(&self) -> (r: Vec<&'a str>)
        requires
            keys_are_utf8(self.header_list()),
        ensures
            r@.len() == self.header_list().len(),
            forall|i: int|
                0 <= i < r@.len() ==> (#[trigger] r@[i]).spec_bytes() == self.header_list()[i].0,
    {
        let ghost list = self.header_list();
        let count = borrowed_headers_count(self.headers);
        let mut keys: Vec<&'a str> = Vec::new();
        let mut i: usize = 0;
        while i < count
            invariant
                list == borrowed_header_list(*self.headers),
                count == list.len(),
                keys_are_utf8(list),
                i <= count,
                keys@.len() == i,
                forall|j: int| 0 <= j < i ==> (#[trigger] keys@[j]).spec_bytes() == list[j].0,
            decreases count - i,
        {
            let k = borrowed_header_key(self.headers, i);
            keys.push(k);
            i = i + 1;
        }
        keys
    }
}

pub open spec fn has_no_nul_char(chars: Seq<char>) -> bool {
    forall|i: int| 0 <= i < chars.len() ==> chars[i] != '\0'
}

proof fn lemma_encode_scalar_no_nul(c: char)
    requires
        c != '\0',
    ensures
        has_no_nul(encode_scalar(c as u32)),
{
    let s = c as u32;
    assert(is_scalar(s)) by {
        char_is_scalar(c);
    }
    assert(s != 0);
    if has_width_1_encoding(s) {
        assert(leading_byte_width_1(s) != 0) by (bit_vector)
            requires
                1 <= s <= 0x7f,
        ;
    } else if has_width_2_encoding(s) {
        assert(leading_byte_width_2(s) != 0 && last_continuation_byte(s) != 0) by (bit_vector);
    } else if has_width_3_encoding(s) {
        assert(leading_byte_width_3(s) != 0 && second_last_continuation_byte(s) != 0
            && last_continuation_byte(s) != 0) by (bit_vector);
    } else {
        assert(leading_byte_width_4(s) != 0 && third_last_continuation_byte(s) != 0
            && second_last_continuation_byte(s) != 0 && last_continuation_byte(s) != 0)
            by (bit_vector);
    }
}

proof fn lemma_encode_utf8_no_nul(chars: Seq<char>)
    requires
        has_no_nul_char(chars),
    ensures
        has_no_nul(encode_utf8(chars)),
    decreases chars.len(),
{
    if chars.len() > 0 {
        lemma_encode_scalar_no_nul(chars[0]);
        lemma_encode_utf8_no_nul(chars.drop_first());
        let a = encode_scalar(chars[0] as u32);
        let b = encode_utf8(chars.drop_first());
        assert forall|i: int| 0 <= i < (a + b).len() implies (a + b)[i] != 0 by {
            if i < a.len() {
                assert((a + b)[i] == a[i]);
            } else {
                assert((a + b)[i] == b[i - a.len()]);
            }
        }
    }
}

proof fn lemma_lookup_skips_unmatched_prefix(a: Seq<HeaderEntry>, b: Seq<HeaderEntry>, key: Seq<u8>)
    requires
        forall|k: int| 0 <= k < a.len() ==> !header_matches(#[trigger] a[k], key),
    ensures
        header_lookup(a + b, key) == header_lookup(b, key),
    decreases a.len(),
{
    if a.len() > 0 {
        assert((a + b)[0] == a[0]);
        assert((a + b).drop_first() =~= a.drop_first() + b);
        assert forall|k: int| 0 <= k < a.drop_first().len() implies !header_matches(
            #[trigger] a.drop_first()[k],
            key,
        ) by {
            assert(a.drop_first()[k] == a[k + 1]);
        }
        lemma_lookup_skips_unmatched_prefix(a.drop_first(), b, key);
    } else {
        assert(a + b =~= b);
    }
}

/// A lookup finds the first header whose key is the key sought and whose
/// value, if any, is valid UTF-8: it returns that header's value as text, or
/// none when the header has no value; with no such header, it finds nothing.
pub proof fn law_header_lookup(list: Seq<HeaderEntry>, key: Seq<u8>)
    ensures
        forall|i: int|
            0 <= i < list.len() && #[trigger] header_matches(list[i], key) && (forall|j: int|
                0 <= j < i ==> !header_matches(list[j], key)) ==> header_lookup(list, key) == match list[i].1 {
                Some(v) => Some(decode_utf8(v)),
                None => None,
            },
        (forall|i: int| 0 <= i < list.len() ==> !header_matches(#[trigger] list[i], key))
            ==> header_lookup(list, key) is None,
{
    assert forall|i: int|
        0 <= i < list.len() && #[trigger] header_matches(list[i], key) && (forall|j: int|
            0 <= j < i ==> !header_matches(list[j], key)) implies header_lookup(list, key) == match list[i].1 {
        Some(v) => Some(decode_utf8(v)),
        None => None,
    } by {
        let a = list.take(i);
        let b = list.skip(i);
        assert(list =~= a + b);
        assert forall|k: int| 0 <= k < a.len() implies !header_matches(#[trigger] a[k], key) by {
            assert(a[k] == list[k]);
        }
        lemma_lookup_skips_unmatched_prefix(a, b, key);
        assert(b[0] == list[i]);
    }
    if forall|i: int| 0 <= i < list.len() ==> !header_matches(#[trigger] list[i], key) {
        lemma_lookup_skips_unmatched_prefix(list, Seq::<HeaderEntry>::empty(), key);
        assert(list + Seq::<HeaderEntry>::empty() =~= list);
    }
}

/// What the injector records under a key is what the extractor reads for
/// that key from the headers that the merge produces: for the first field
/// recorded under key `k`, when no header of the record carries `k` and no key
/// recorded up to that field holds a NUL character.
pub proof fn law_injected_field_is_extracted(
    existing: Seq<HeaderEntry>,
    fields: Seq<(Seq<char>, Seq<char>)>,
    i: int,
)
    requires
        0 <= i < fields.len(),
        forall|j: int| 0 <= j < existing.len() ==> (#[trigger] existing[j]).0 != encode_utf8(fields[i].0),
        forall|j: int| 0 <= j <= i ==> has_no_nul_char(#[trigger] fields[j].0),
        forall|j: int| 0 <= j < i ==> (#[trigger] fields[j]).0 != fields[i].0,
    ensures
        header_lookup(merged_headers(existing, fields), encode_utf8(fields[i].0)) == Some(
            fields[i].1,
        ),
{
    let key = encode_utf8(fields[i].0);
    let injected = injected_headers(fields);
    assert forall|k: int| 0 <= k < existing.len() implies !header_matches(
        #[trigger] existing[k],
        key,
    ) by {}
    lemma_lookup_skips_unmatched_prefix(existing, injected, key);
    let before = injected.take(i);
    let rest = injected.skip(i);
    assert(injected =~= before + rest);
    assert forall|k: int| 0 <= k < before.len() implies !header_matches(#[trigger] before[k], key) by {
        assert(before[k] == injected_header(fields[k]));
        lemma_encode_utf8_no_nul(fields[k].0);
        lemma_until_nul_of_no_nul(encode_utf8(fields[k].0));
        lemma_encode_utf8_injective(fields[k].0, fields[i].0);
    }
    lemma_lookup_skips_unmatched_prefix(before, rest, key);
    assert(rest[0] == injected_header(fields[i]));
    lemma_encode_utf8_no_nul(fields[i].0);
    lemma_until_nul_of_no_nul(key);
    broadcast use encode_utf8_valid_utf8, encode_utf8_decode_utf8;

    assert(valid_utf8(encode_utf8(fields[i].1)));
    assert(decode_utf8(encode_utf8(fields[i].1)) == fields[i].1);
    assert(header_matches(rest[0], key));
}

proof fn lemma_until_nul_after_no_nul(a: Seq<u8>, b: Seq<u8>)
    requires
        has_no_nul(a),
    ensures
        until_nul(a + b) == a + until_nul(b),
    decreases a.len(),
{
    if a.len() > 0 {
        assert((a + b)[0] == a[0]);
        assert((a + b).drop_first() =~= a.drop_first() + b);
        lemma_until_nul_after_no_nul(a.drop_first(), b);
        assert(seq![a[0]] + (a.drop_first() + until_nul(b)) =~= a + until_nul(b));
    } else {
        assert(a + b =~= b);
        assert(a + until_nul(b) =~= until_nul(b));
    }
}

/// A valid first scalar stays valid, with the same length, whatever follows it.
proof fn lemma_first_scalar_any_tail(a: Seq<u8>, y: Seq<u8>, x: Seq<u8>)
    requires
        valid_first_scalar(a + y),
        length_of_first_scalar(a + y) == a.len(),
    ensures
        valid_first_scalar(a + x),
        length_of_first_scalar(a + x) == a.len(),
        pop_first_scalar(a + x) == x,
{
    let u = a + y;
    let v = a + x;
    assert(1 <= a.len() <= 4);
    assert(u[0] == v[0]);
    if a.len() >= 2 {
        assert(u[1] == v[1]);
    }
    if a.len() >= 3 {
        assert(u[2] == v[2]);
    }
    if a.len() >= 4 {
        assert(u[3] == v[3]);
    }
    assert(v.subrange(a.len() as int, v.len() as int) =~= x);
}

/// The key that a field becomes is valid UTF-8: the UTF-8 encoding of a
/// text, cut at its first NUL byte.
pub proof fn lemma_injected_key_is_utf8(chars: Seq<char>)
    ensures
        valid_utf8(until_nul(encode_utf8(chars))),
    decreases chars.len(),
{
    if chars.len() > 0 {
        let a = encode_scalar(chars[0] as u32);
        let rest = encode_utf8(chars.drop_first());
        assert(encode_utf8(chars) == a + rest);
        if chars[0] == '\0' {
            let z = 0u32;
            assert(leading_byte_width_1(z) == 0) by (bit_vector)
                requires
                    z == 0,
            ;
            assert((chars[0] as u32) == 0);
            assert((a + rest)[0] == 0);
        } else {
            lemma_encode_scalar_no_nul(chars[0]);
            lemma_until_nul_after_no_nul(a, rest);
            lemma_injected_key_is_utf8(chars.drop_first());
            encode_utf8_first_scalar(chars);
            lemma_first_scalar_any_tail(a, rest, until_nul(rest));
        }
    }
}

/// The headers that the injector makes have UTF-8 keys, so a record whose
/// own header keys are UTF-8 keeps UTF-8 keys after the merge.
pub proof fn law_merged_keys_are_utf8(
    existing: Seq<HeaderEntry>,
    fields: Seq<(Seq<char>, Seq<char>)>,
)
    requires
        keys_are_utf8(existing),
    ensures
        keys_are_utf8(injected_headers(fields)),
        keys_are_utf8(merged_headers(existing, fields)),
{
    let injected = injected_headers(fields);
    assert forall|i: int| 0 <= i < injected.len() implies valid_utf8(#[trigger] injected[i].0) by {
        lemma_injected_key_is_utf8(fields[i].0);
    }
    let merged = merged_headers(existing, fields);
    assert forall|i: int| 0 <= i < merged.len() implies valid_utf8(#[trigger] merged[i].0) by {
        if i < existing.len() {
            assert(merged[i] == existing[i]);
        } else {
            assert(merged[i] == injected[i - existing.len()]);
        }
    }
}

/// UTF-8 encoding is injective.
pub proof fn lemma_encode_utf8_injective(a: Seq<char>, b: Seq<char>)
    ensures
        encode_utf8(a) == encode_utf8(b) <==> a == b,
{
    broadcast use encode_utf8_decode_utf8;

    if encode_utf8(a) == encode_utf8(b) {
        assert(decode_utf8(encode_utf8(a)) == decode_utf8(encode_utf8(b)));
    }
}

} // verus!

use http::header::HeaderMap as HttpHeaderMap;
use http::header::{HeaderName, HeaderValue};
use vstd::prelude::*;
use vstd::string::StringSliceAdditionalSpecFns;
use vstd::utf8::encode_utf8;

verus! {

#[verifier::external_type_specification]
#[verifier::external_body]
#[verifier::reject_recursive_types(T)]
pub struct ExHttpHeaderMap<T>(HttpHeaderMap<T>);

#[verifier::external_type_specification]
#[verifier::external_body]
pub struct ExHeaderValue(HeaderValue);

#[verifier::external_type_specification]
#[verifier::external_body]
pub struct ExHeaderName(HeaderName);

/// What an http header map holds: for each header name (its bytes, in lower case),
/// the bytes of the first value stored under it.
pub uninterp spec fn header_entries(m: HttpHeaderMap<HeaderValue>) -> Map<Seq<u8>, Seq<u8>>;

/// The bytes that an http header name holds.
pub uninterp spec fn header_name_bytes(n: HeaderName) -> Seq<u8>;

/// The bytes that an http header value holds.
pub uninterp spec fn header_value_bytes(v: HeaderValue) -> Seq<u8>;

/// No headers at all.
pub open spec fn no_headers() -> Map<Seq<u8>, Seq<u8>> {
    Map::empty()
}

/// The longest header name that `http` handles; longer ones make it panic.
pub const MAX_HEADER_NAME_LEN: usize = 65535;

/// The most names an http header map can hold; a new name beyond them makes it panic.
pub const MAX_HEADER_NAMES: usize = 32768;

/// A byte allowed in a header name: a token character.
pub open spec fn is_header_name_byte(b: u8) -> bool {
    ||| 33 <= b <= 39
    ||| b == 42
    ||| b == 43
    ||| b == 45
    ||| b == 46
    ||| 48 <= b <= 57
    ||| 65 <= b <= 90
    ||| 94 <= b <= 122
    ||| b == 124
    ||| b == 126
}

/// A header name: one or more token characters.
pub open spec fn is_header_name(b: Seq<u8>) -> bool {
    b.len() > 0 && forall|i: int| 0 <= i < b.len() ==> is_header_name_byte(#[trigger] b[i])
}

/// An ASCII upper-case letter made lower case; other bytes stay.
pub open spec fn lower_byte(b: u8) -> u8 {
    if 65 <= b <= 90 {
        (b + 32) as u8
    } else {
        b
    }
}

/// The bytes with ASCII letters in lower case: how http compares and stores names.
pub open spec fn lower_bytes(b: Seq<u8>) -> Seq<u8> {
    b.map_values(|x: u8| lower_byte(x))
}

/// A byte that `HeaderValue::to_str` accepts: visible ASCII or tab.
pub open spec fn is_visible_ascii(b: u8) -> bool {
    (32 <= b && b < 127) || b == 9
}

/// Every byte is visible ASCII or tab.
pub open spec fn all_visible_ascii(b: Seq<u8>) -> bool {
    forall|i: int| 0 <= i < b.len() ==> is_visible_ascii(#[trigger] b[i])
}

/// ASCII bytes read as text.
pub open spec fn ascii_text(b: Seq<u8>) -> Seq<char> {
    b.map_values(|x: u8| x as char)
}

/// A source of header values, looked up by name.
pub trait HeaderMap {
    /// The first value stored under `key`, as text; none where there is no such value
    /// or it is not text. Names are matched without regard to ASCII case.
    spec fn value_text(&self, key: Seq<char>) -> Option<Seq<char>>;

    /// The first value stored under `header_key`, as text, if there is one.
    fn get_value(&self, header_key: &str) -> (r: Option<&str>)
        ensures
            match self.value_text(header_key@) {
                Some(t) => r matches Some(s) && s@ == t,
                None => r is None,
            },
    ;
}

/// Relies on http::header::HeaderMap::get: the first value stored under the name,
/// which it reads through the table of token characters (so in lower case); a name
/// that is not a header name finds nothing. It panics on names of 65536 bytes or more.
#[verifier::external_body]
fn header_get<'a>(map: &'a HttpHeaderMap<HeaderValue>, key: &str) -> (r: Option<&'a HeaderValue>)
    requires
        key.spec_bytes().len() <= MAX_HEADER_NAME_LEN,
    ensures
        r is Some <==> (is_header_name(key.spec_bytes()) && header_entries(*map).contains_key(
            lower_bytes(key.spec_bytes()),
        )),
        r matches Some(v) ==> header_value_bytes(*v) == header_entries(*map)[lower_bytes(
            key.spec_bytes(),
        )],
{
    map.get(key)
}

/// Relies on http::header::HeaderValue::to_str: the value's bytes as text, given
/// exactly where every byte is visible ASCII or tab.
#[verifier::external_body]
fn header_value_text(v: &HeaderValue) -> (r: Option<&str>)
    ensures
        r is Some <==> all_visible_ascii(header_value_bytes(*v)),
        r matches Some(s) ==> s@ == ascii_text(header_value_bytes(*v)),
{
    v.to_str().ok()
}

impl HeaderMap for HttpHeaderMap<HeaderValue> {
    open spec fn value_text(&self, key: Seq<char>) -> Option<Seq<char>> {
        let k = encode_utf8(key);
        let name = lower_bytes(k);
        if k.len() <= MAX_HEADER_NAME_LEN && is_header_name(k) && header_entries(
            *self,
        ).contains_key(name) && all_visible_ascii(header_entries(*self)[name]) {
            Some(ascii_text(header_entries(*self)[name]))
        } else {
            None
        }
    }

    fn get_value(&self, header_key: &str) -> (r: Option<&str>) {
        if header_key.as_bytes().len() > MAX_HEADER_NAME_LEN {
            return None;
        }
        match header_get(self, header_key) {
            Some(v) => header_value_text(v),
            None => None,
        }
    }
}

} // verus!

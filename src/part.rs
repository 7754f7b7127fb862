use crate::buffer::{
    bytes_advance, bytes_contents, bytes_empty, bytes_from_vec, bytes_slice, bytes_split_to,
};
use crate::header_map::{
    header_entries, header_name_bytes, header_value_bytes, is_header_name, lower_bytes, no_headers,
    MAX_HEADER_NAMES, MAX_HEADER_NAME_LEN,
};
use crate::parser::{CR, LF};
use crate::search::{
    find_bytes, first_occurrence, lemma_first_occurrence_is, lemma_no_occurrence, occurs_at,
};
use bytes::Bytes;
use http::header::HeaderMap as HttpHeaderMap;
use http::header::{HeaderName, HeaderValue};
use vstd::prelude::*;
use vstd::slice::slice_to_vec;
use vstd::string::{StrSliceExecFns, StringSliceAdditionalSpecFns};
use vstd::utf8::{decode_utf8, encode_utf8, valid_utf8};

verus! {

#[verifier::external_type_specification]
#[verifier::external_body]
pub struct ExUtf8Error(std::str::Utf8Error);

/// The blank line that ends a header block: CR LF CR LF.
pub open spec fn blank_line() -> Seq<u8> {
    seq![CR, LF, CR, LF]
}

/// The header block and the body of a part's raw bytes: split at the first blank
/// line, which belongs to neither; without one, no headers and all of it is body.
pub open spec fn split_part(raw: Seq<u8>) -> (Seq<u8>, Seq<u8>) {
    match first_occurrence(raw, blank_line()) {
        None => (Seq::empty(), raw),
        Some(p) => (raw.subrange(0, p), raw.subrange(p + 4, raw.len() as int)),
    }
}

/// The lines of `b` from the line that starts at `start`, scanning from `i`.
pub open spec fn lines_from(b: Seq<u8>, start: int, i: int) -> Seq<Seq<u8>>
    decreases b.len() - i,
{
    if i >= b.len() {
        seq![b.subrange(start, b.len() as int)]
    } else if b[i] == LF {
        seq![b.subrange(start, i)] + lines_from(b, i + 1, i + 1)
    } else {
        lines_from(b, start, i + 1)
    }
}

/// `b` cut at each line feed, which belongs to no line. There is always at least one
/// line (an empty `b` has one empty line).
pub open spec fn split_lines(b: Seq<u8>) -> Seq<Seq<u8>> {
    lines_from(b, 0, 0)
}

/// A character of the Unicode `White_Space` property.
pub open spec fn is_white_space(c: char) -> bool {
    let u = c as u32;
    ||| 0x9 <= u <= 0xd
    ||| u == 0x20
    ||| u == 0x85
    ||| u == 0xa0
    ||| u == 0x1680
    ||| 0x2000 <= u <= 0x200a
    ||| u == 0x2028
    ||| u == 0x2029
    ||| u == 0x202f
    ||| u == 0x205f
    ||| u == 0x3000
}

/// `s` without its leading white space.
pub open spec fn trim_start(s: Seq<char>) -> Seq<char>
    decreases s.len(),
{
    if s.len() > 0 && is_white_space(s[0]) {
        trim_start(s.drop_first())
    } else {
        s
    }
}

/// `s` without its trailing white space.
pub open spec fn trim_end(s: Seq<char>) -> Seq<char>
    decreases s.len(),
{
    if s.len() > 0 && is_white_space(s.last()) {
        trim_end(s.drop_last())
    } else {
        s
    }
}

/// `s` without leading and trailing white space.
pub open spec fn trimmed(s: Seq<char>) -> Seq<char> {
    trim_end(trim_start(s))
}

/// What a header line gives: its trimmed text where its bytes are UTF-8, an error
/// where they are not.
pub open spec fn line_entry(e: Result<&str, std::str::Utf8Error>, line: Seq<u8>) -> bool {
    match e {
        Ok(s) => valid_utf8(line) && s@ == trimmed(decode_utf8(line)),
        Err(_) => !valid_utf8(line),
    }
}

/// A byte allowed in a header value: anything but control characters, tab excepted.
pub open spec fn is_header_value_byte(b: u8) -> bool {
    (b >= 32 && b != 127) || b == 9
}

/// `c` is the position of the first `:` in `s`.
pub open spec fn is_first_colon(s: Seq<char>, c: int) -> bool {
    &&& 0 <= c < s.len()
    &&& s[c] == ':'
    &&& forall|j: int| 0 <= j < c ==> s[j] != ':'
}

/// The name of a header line split at `c`, trimmed, as bytes.
pub open spec fn line_name(s: Seq<char>, c: int) -> Seq<u8> {
    encode_utf8(trimmed(s.subrange(0, c)))
}

/// The value of a header line split at `c`, trimmed, as bytes.
pub open spec fn line_value(s: Seq<char>, c: int) -> Seq<u8> {
    encode_utf8(trimmed(s.subrange(c + 1, s.len() as int)))
}

/// The line split at `c` has a valid header name and a valid header value.
pub open spec fn header_pair_valid(s: Seq<char>, c: int) -> bool {
    let name = line_name(s, c);
    let value = line_value(s, c);
    &&& name.len() <= MAX_HEADER_NAME_LEN
    &&& is_header_name(name)
    &&& forall|i: int| 0 <= i < value.len() ==> is_header_value_byte(#[trigger] value[i])
}

/// The header a line of text gives: split at its first `:`, the trimmed name in
/// lower case and the trimmed value, where both are allowed; none otherwise.
pub open spec fn header_of_text(s: Seq<char>) -> Option<(Seq<u8>, Seq<u8>)> {
    if exists|c: int| is_first_colon(s, c) {
        let c = choose|c: int| is_first_colon(s, c);
        if header_pair_valid(s, c) {
            Some((lower_bytes(line_name(s, c)), line_value(s, c)))
        } else {
            None
        }
    } else {
        None
    }
}

/// The header a raw header line gives: none where it is not UTF-8.
pub open spec fn line_header(line: Seq<u8>) -> Option<(Seq<u8>, Seq<u8>)> {
    if valid_utf8(line) {
        header_of_text(trimmed(decode_utf8(line)))
    } else {
        None
    }
}

/// The headers that `lines` give, in order, a later value replacing an earlier one of
/// the same name. A new name is left out once the map holds as many as it can.
pub open spec fn headers_of(lines: Seq<Seq<u8>>) -> Map<Seq<u8>, Seq<u8>>
    decreases lines.len(),
{
    if lines.len() == 0 {
        Map::empty()
    } else {
        let m = headers_of(lines.drop_last());
        match line_header(lines.last()) {
            Some((name, value)) => if m.dom().len() < MAX_HEADER_NAMES {
                m.insert(name, value)
            } else {
                m
            },
            None => m,
        }
    }
}

/// Relies on std::str::from_utf8: the bytes as text, exactly where they are valid UTF-8.
#[verifier::external_body]
fn text_from_utf8(b: &[u8]) -> (r: Result<&str, std::str::Utf8Error>)
    ensures
        r is Ok <==> valid_utf8(b@),
        r matches Ok(s) ==> s.spec_bytes() == b@ && s@ == decode_utf8(b@),
{
    std::str::from_utf8(b)
}

/// Relies on str::trim: removes leading and trailing characters of the Unicode
/// `White_Space` property.
#[verifier::external_body]
fn trim(s: &str) -> (r: &str)
    ensures
        r@ == trimmed(s@),
{
    s.trim()
}

/// Relies on http::header::HeaderName::from_bytes: it accepts a non-empty name made
/// of token characters and stores it with ASCII letters in lower case; it panics on
/// names of 65536 bytes or more.
#[verifier::external_body]
fn header_name_from_bytes(b: &[u8]) -> (r: Option<HeaderName>)
    requires
        b@.len() <= MAX_HEADER_NAME_LEN,
    ensures
        r is Some <==> is_header_name(b@),
        r matches Some(n) ==> header_name_bytes(n) == lower_bytes(b@),
{
    HeaderName::from_bytes(b).ok()
}

/// Relies on http::header::HeaderValue::from_str: it accepts a value with no control
/// characters other than tab.
#[verifier::external_body]
fn header_value_from_str(s: &str) -> (r: Option<HeaderValue>)
    ensures
        r is Some <==> forall|i: int|
            0 <= i < s.spec_bytes().len() ==> is_header_value_byte(#[trigger] s.spec_bytes()[i]),
        r matches Some(v) ==> header_value_bytes(v) == s.spec_bytes(),
{
    HeaderValue::from_str(s).ok()
}

/// Relies on http::header::HeaderMap::new: an empty map.
#[verifier::external_body]
fn header_map_new() -> (r: HttpHeaderMap<HeaderValue>)
    ensures
        header_entries(r) == no_headers(),
{
    HttpHeaderMap::new()
}

/// Relies on http::header::HeaderMap::keys_len: the number of names stored.
#[verifier::external_body]
fn header_map_keys_len(map: &HttpHeaderMap<HeaderValue>) -> (r: usize)
    ensures
        r == header_entries(*map).dom().len(),
{
    map.keys_len()
}

/// Relies on http::header::HeaderMap::insert: stores the value under the name,
/// replacing any earlier ones. It panics on a new name once 32768 names are stored.
#[verifier::external_body]
fn header_map_insert(map: &mut HttpHeaderMap<HeaderValue>, name: HeaderName, value: HeaderValue)
    requires
        header_entries(*old(map)).dom().len() < MAX_HEADER_NAMES,
    ensures
        header_entries(*final(map)) == header_entries(*old(map)).insert(
            header_name_bytes(name),
            header_value_bytes(value),
        ),
{
    map.insert(name, value);
}

/// Splits a header line at its first `:` into a header name (in lower case) and a
/// value, both trimmed. A line without `:`, or with a name or value that HTTP does
/// not allow, gives nothing.
pub fn parse_header_line(s: &str) -> (r: Option<(HeaderName, HeaderValue)>)
    ensures
        (forall|j: int| 0 <= j < s@.len() ==> s@[j] != ':') ==> r is None,
        forall|c: int| is_first_colon(s@, c) ==> (r is Some <==> header_pair_valid(s@, c)),
        match header_of_text(s@) {
            Some((name, value)) => r matches Some((n, v)) && header_name_bytes(n) == name
                && header_value_bytes(v) == value,
            None => r is None,
        },
{
    let n = s.unicode_len();
    let mut c: usize = 0;
    while c < n
        invariant
            c <= n,
            n == s@.len(),
            forall|j: int| 0 <= j < c ==> s@[j] != ':',
        ensures
            c <= n,
            forall|j: int| 0 <= j < c ==> s@[j] != ':',
            c < n ==> s@[c as int] == ':',
        decreases n - c,
    {
        if s.get_char(c) == ':' {
            break;
        }
        c = c + 1;
    }
    if c == n {
        return None;
    }
    assert(is_first_colon(s@, c as int));
    assert forall|k: int| is_first_colon(s@, k) implies k == c by {
        if k < c {
            assert(s@[k] != ':');
        } else if k > c {
            assert(s@[c as int] != ':');
        }
    }
    assert((choose|k: int| is_first_colon(s@, k)) == c);
    let name = trim(s.substring_char(0, c));
    let value = trim(s.substring_char(c + 1, n));
    let name_bytes = name.as_bytes();
    assert(name_bytes@ == line_name(s@, c as int));
    assert(value.spec_bytes() == line_value(s@, c as int));
    if name_bytes.len() > MAX_HEADER_NAME_LEN {
        return None;
    }
    let header_name = match header_name_from_bytes(name_bytes) {
        Some(h) => h,
        None => return None,
    };
    let header_value = match header_value_from_str(value) {
        Some(v) => v,
        None => return None,
    };
    Some((header_name, header_value))
}

/// One part of a multipart stream: its raw header block and its body.
pub struct Part {
    headers_data: Bytes,
    pub body_data: Bytes,
}

impl Part {
    /// The raw header lines, without the blank line that ends them.
    pub closed spec fn header_block(&self) -> Seq<u8> {
        bytes_contents(self.headers_data)
    }

    /// The body.
    pub closed spec fn body_bytes(&self) -> Seq<u8> {
        bytes_contents(self.body_data)
    }

    /// The part held in the raw bytes of a frozen buffer, split without copying.
    pub fn from_bytes(bs: Bytes) -> (r: Part)
        ensures
            r.header_block() == split_part(bytes_contents(bs)).0,
            r.body_bytes() == split_part(bytes_contents(bs)).1,
    {
        let ghost raw = bytes_contents(bs);
        let sep: Vec<u8> = vec![CR, LF, CR, LF];
        assert(sep@ =~= blank_line());
        match find_bytes(bytes_slice(&bs), sep.as_slice()) {
            None => {
                proof {
                    lemma_no_occurrence(raw, blank_line());
                }
                Part { headers_data: bytes_empty(), body_data: bs }
            },
            Some(p) => {
                proof {
                    lemma_first_occurrence_is(raw, blank_line(), p as int);
                }
                let mut body = bs;
                let headers = bytes_split_to(&mut body, p);
                bytes_advance(&mut body, 4);
                assert(bytes_contents(body) =~= raw.subrange(p + 4, raw.len() as int));
                Part { headers_data: headers, body_data: body }
            },
        }
    }

    /// The part held in raw bytes, copied out.
    pub fn from_slice(bs: &[u8]) -> (r: Part)
        ensures
            r.header_block() == split_part(bs@).0,
            r.body_bytes() == split_part(bs@).1,
    {
        let sep: Vec<u8> = vec![CR, LF, CR, LF];
        assert(sep@ =~= blank_line());
        match find_bytes(bs, sep.as_slice()) {
            None => {
                proof {
                    lemma_no_occurrence(bs@, blank_line());
                }
                Part { headers_data: bytes_empty(), body_data: bytes_from_vec(slice_to_vec(bs)) }
            },
            Some(i) => {
                proof {
                    lemma_first_occurrence_is(bs@, blank_line(), i as int);
                    assert(blank_line().len() == 4);
                    assert(occurs_at(bs@, blank_line(), i as int));
                }
                let n = bs.len();
                assert(i + 4 <= n);
                let headers = bytes_from_vec(slice_to_vec(&bs[0..i]));
                let body = bytes_from_vec(slice_to_vec(&bs[i + 4..n]));
                Part { headers_data: headers, body_data: body }
            },
        }
    }

    /// The body.
    pub fn body(&self) -> (r: &[u8])
        ensures
            r@ == self.body_bytes(),
    {
        bytes_slice(&self.body_data)
    }

    /// The body, handed over.
    pub fn into_body(self) -> (r: Bytes)
        ensures
            bytes_contents(r) == self.body_bytes(),
    {
        self.body_data
    }

    /// The length of the body in bytes.
    pub fn body_len(&self) -> (r: usize)
        ensures
            r == self.body_bytes().len(),
    {
        bytes_slice(&self.body_data).len()
    }

    /// The header lines, cut at line feeds, each trimmed (which drops the carriage
    /// return before the line feed), or the decoding error of a line that is not UTF-8.
    pub fn header_lines(&self) -> (r: Vec<Result<&str, std::str::Utf8Error>>)
        ensures
            r@.len() == split_lines(self.header_block()).len(),
            forall|k: int|
                0 <= k < r@.len() ==> line_entry(#[trigger] r@[k], split_lines(self.header_block())[k]),
    {
        let h = bytes_slice(&self.headers_data);
        let ghost lines = split_lines(h@);
        let mut out: Vec<Result<&str, std::str::Utf8Error>> = Vec::new();
        let ghost mut done: Seq<Seq<u8>> = Seq::empty();
        let mut start: usize = 0;
        let mut i: usize = 0;
        while i < h.len()
            invariant
                start <= i <= h@.len(),
                h@ == self.header_block(),
                lines == split_lines(h@),
                done + lines_from(h@, start as int, i as int) == lines,
                out@.len() == done.len(),
                forall|k: int| 0 <= k < out@.len() ==> line_entry(#[trigger] out@[k], done[k]),
            decreases h@.len() - i,
        {
            if h[i] == LF {
                let line = &h[start..i];
                let entry = match text_from_utf8(line) {
                    Ok(s) => Ok(trim(s)),
                    Err(e) => Err(e),
                };
                out.push(entry);
                proof {
                    assert(done + lines_from(h@, start as int, i as int) =~= done.push(line@)
                        + lines_from(h@, i + 1, i + 1));
                    done = done.push(line@);
                }
                start = i + 1;
            }
            i = i + 1;
        }
        let line = &h[start..h.len()];
        let entry = match text_from_utf8(line) {
            Ok(s) => Ok(trim(s)),
            Err(e) => Err(e),
        };
        out.push(entry);
        proof {
            assert(done + lines_from(h@, start as int, i as int) =~= done.push(line@));
            done = done.push(line@);
            assert(done =~= lines);
        }
        out
    }

    /// The headers as a map: each line that decodes and splits into a valid name and
    /// value, in order, with a later line replacing an earlier one of the same name.
    /// Other lines are skipped. Names beyond what the map can hold are left out.
    pub fn headers(&self) -> (r: HttpHeaderMap<HeaderValue>)
        ensures
            header_entries(r) == headers_of(split_lines(self.header_block())),
    {
        let lines = self.header_lines();
        let ghost all = split_lines(self.header_block());
        let mut res = header_map_new();
        let mut k: usize = 0;
        assert(all.subrange(0, 0) =~= Seq::<Seq<u8>>::empty());
        while k < lines.len()
            invariant
                k <= lines@.len(),
                lines@.len() == all.len(),
                forall|i: int| 0 <= i < lines@.len() ==> line_entry(#[trigger] lines@[i], all[i]),
                header_entries(res) == headers_of(all.subrange(0, k as int)),
            decreases lines@.len() - k,
        {
            let ghost prefix = all.subrange(0, k as int + 1);
            assert(prefix.drop_last() =~= all.subrange(0, k as int));
            assert(prefix.last() == all[k as int]);
            assert(line_entry(lines@[k as int], all[k as int]));
            if let Ok(s) = &lines[k] {
                let full = header_map_keys_len(&res) >= MAX_HEADER_NAMES;
                if let Some((name, value)) = parse_header_line(s) {
                    if !full {
                        header_map_insert(&mut res, name, value);
                    }
                }
            }
            k = k + 1;
        }
        assert(all.subrange(0, lines@.len() as int) =~= all);
        res
    }
}

} // verus!

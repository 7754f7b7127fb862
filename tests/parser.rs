use hyper_multipart::parser::{BoundaryParser, ParseResult, Parser};
use hyper_multipart::Error;

fn expect_ready(r: ParseResult, exp: &str) {
    match r {
        ParseResult::Ready(b) => assert_eq!(&b[..], exp.as_bytes()),
        other => panic!("expected a part, got {:?}", other),
    }
}

fn expect_done(r: ParseResult) {
    assert!(matches!(r, ParseResult::Done), "expected the end, got {:?}", r);
}

fn expect_not_ready(r: ParseResult) {
    assert!(matches!(r, ParseResult::NotReady), "expected not ready, got {:?}", r);
}

fn expect_malformed(r: ParseResult) {
    assert!(
        matches!(r, ParseResult::Failed(Error::MalformedMultipart(_))),
        "expected a framing error, got {:?}",
        r
    );
}

#[test]
fn parse_simple_boundary() {
    let data = "\r
\r
--simple boundary\r
\r
Part1\r
--simple boundary\r
Content-type: text/plain; charset=us-ascii\r
\r
Part2\r
\r
--simple boundary--\r
";

    let mut p = BoundaryParser::with_capacity("simple boundary", 500);
    p.add_bytes(data.as_bytes());
    let exp = "\r
Part1";

    expect_ready(p.parse(), exp);

    let exp = "Content-type: text/plain; charset=us-ascii\r
\r
Part2\r
";

    expect_ready(p.parse(), exp);
    expect_done(p.parse());
}

#[test]
fn parse_boundary_without_leading_crlf() {
    let data = "--simple boundary\r
\r
Part1\r
--simple boundary\r
Content-type: text/plain; charset=us-ascii\r
\r
Part2\r
\r
--simple boundary--\r
";

    let mut p = BoundaryParser::with_capacity("simple boundary", 500);
    p.add_bytes(data.as_bytes());

    let exp = "\r
Part1";

    expect_ready(p.parse(), exp);

    let exp = "Content-type: text/plain; charset=us-ascii\r
\r
Part2\r
";

    expect_ready(p.parse(), exp);
    expect_done(p.parse());
}

#[test]
fn parse_boundary_with_preamble() {
    let data = "\r
\r
This is the preamble.  It is to be ignored, though it\r
is a handy place for composition agents to include an\r
explanatory note to non-MIME conformant readers.\r
\r
--simple boundary\r
\r
Part1\r
--simple boundary\r
Content-type: text/plain; charset=us-ascii\r
\r
Part2\r
\r
--simple boundary--\r
\r
This is the epilogue.  It is also to be ignored.\r
\r
";

    let mut p = BoundaryParser::with_capacity("simple boundary", 500);
    p.add_bytes(data.as_bytes());

    let exp = "\r
Part1";

    expect_ready(p.parse(), exp);

    let exp = "Content-type: text/plain; charset=us-ascii\r
\r
Part2\r
";

    expect_ready(p.parse(), exp);
    expect_done(p.parse());
}

#[test]
fn scenario_simple_boundary_parts() {
    let data = "\r\n--simple boundary\r\n\r\nPart1\r\n--simple boundary\r\nContent-type: text/plain\r\n\r\nPart2\r\n\r\n--simple boundary--\r\n";
    let mut p = BoundaryParser::with_capacity("simple boundary", 0);
    p.add_bytes(data.as_bytes());
    expect_ready(p.parse(), "\r\nPart1");
    expect_ready(p.parse(), "Content-type: text/plain\r\n\r\nPart2\r\n");
    expect_done(p.parse());
    expect_done(p.parse());
}

#[test]
fn empty_buffer_is_not_ready() {
    let mut p = BoundaryParser::with_capacity("b", 16);
    expect_not_ready(p.parse());
}

#[test]
fn shorter_than_marker_is_not_ready() {
    let mut p = BoundaryParser::with_capacity("abc", 16);
    p.add_bytes(b"--ab");
    expect_not_ready(p.parse());
}

#[test]
fn marker_without_sentinel_bytes_is_not_ready() {
    let mut p = BoundaryParser::with_capacity("abc", 16);
    p.add_bytes(b"--abc\r");
    expect_not_ready(p.parse());
    p.add_bytes(b"\nbody\r\n--ab");
    expect_not_ready(p.parse());
    p.add_bytes(b"c--");
    expect_ready(p.parse(), "body");
    expect_done(p.parse());
}

#[test]
fn bad_sentinel_is_malformed() {
    let mut p = BoundaryParser::with_capacity("abc", 16);
    p.add_bytes(b"--abcXY\r\n--abc--");
    expect_malformed(p.parse());
}

#[test]
fn next_boundary_without_crlf_is_malformed() {
    let mut p = BoundaryParser::with_capacity("abc", 16);
    p.add_bytes(b"--abc\r\n--abc--");
    expect_malformed(p.parse());
}

#[test]
fn empty_part_between_boundaries() {
    let mut p = BoundaryParser::with_capacity("abc", 16);
    p.add_bytes(b"--abc\r\n\r\n--abc--");
    expect_ready(p.parse(), "");
    expect_done(p.parse());
}

#[test]
fn epilogue_is_ignored() {
    let mut p = BoundaryParser::with_capacity("abc", 16);
    p.add_bytes(b"--abc--garbage");
    expect_done(p.parse());
    p.add_bytes(b"--abc\r\nmore\r\n--abc--");
    expect_done(p.parse());
}

#[test]
fn add_buf_appends_frozen_bytes() {
    let mut p = BoundaryParser::with_capacity("abc", 16);
    p.add_buf(bytes::Bytes::from(&b"--abc\r\nxy"[..]));
    expect_not_ready(p.parse());
    p.add_buf(bytes::Bytes::from(&b"z\r\n--abc--"[..]));
    expect_ready(p.parse(), "xyz");
    expect_done(p.parse());
}

#[test]
fn marker_split_across_every_byte() {
    let data = b"--frame\r\nA: 1\r\n\r\nfirst\r\n--frame\r\n\r\nsecond\r\n--frame--";
    let mut whole = BoundaryParser::with_capacity("frame", 0);
    whole.add_bytes(data);
    let mut expected = Vec::new();
    loop {
        match whole.parse() {
            ParseResult::Ready(b) => expected.push(b.to_vec()),
            ParseResult::Done => break,
            other => panic!("unexpected {:?}", other),
        }
    }
    assert_eq!(expected.len(), 2);

    let mut p = BoundaryParser::with_capacity("frame", 0);
    let mut got = Vec::new();
    let mut done = false;
    for byte in data.iter() {
        p.add_bytes(&[*byte]);
        loop {
            match p.parse() {
                ParseResult::Ready(b) => got.push(b.to_vec()),
                ParseResult::NotReady => break,
                ParseResult::Done => {
                    done = true;
                    break;
                }
                other => panic!("unexpected {:?}", other),
            }
        }
    }
    assert!(done);
    assert_eq!(got, expected);
    assert_eq!(got[0], b"A: 1\r\n\r\nfirst".to_vec());
    assert_eq!(got[1], b"\r\nsecond".to_vec());
}

#[test]
fn parser_enum_delegates() {
    let mut headers = http::HeaderMap::new();
    headers.insert(
        http::header::CONTENT_TYPE,
        http::HeaderValue::from_static("multipart/x-mixed-replace; boundary=frame"),
    );
    let mut p = match Parser::from_with_capacity(&headers, 64) {
        Ok(p) => p,
        Err(e) => panic!("unexpected {:?}", e),
    };
    p.add_bytes(b"--frame\r\nhello\r\n--frame--");
    expect_ready(p.parse(), "hello");
    expect_done(p.parse());
}

#[test]
fn parser_without_content_type() {
    let headers = http::HeaderMap::new();
    assert!(matches!(
        Parser::from_with_capacity(&headers, 64),
        Err(Error::ContentTypeMissing)
    ));
}

#[test]
fn preamble_fed_byte_by_byte_is_discarded() {
    let data = b"a long preamble -- with dashes --fram and more\r\n--frame\r\nH: v\r\n\r\nbody\r\n--frame--\r\nepilogue";
    let mut p = BoundaryParser::with_capacity("frame", 0);
    let mut got = Vec::new();
    let mut done = false;
    for byte in data.iter() {
        p.add_bytes(&[*byte]);
        loop {
            match p.parse() {
                ParseResult::Ready(b) => got.push(b.to_vec()),
                ParseResult::NotReady => break,
                ParseResult::Done => {
                    done = true;
                    break;
                }
                other => panic!("unexpected {:?}", other),
            }
        }
    }
    assert!(done);
    assert_eq!(got, vec![b"H: v\r\n\r\nbody".to_vec()]);
}

#[test]
fn long_body_in_small_chunks() {
    let mut body = Vec::new();
    for k in 0..5000u32 {
        body.push(b'a' + (k % 26) as u8);
        if k % 97 == 0 {
            body.extend_from_slice(b"\r\n--framZ");
        }
    }
    let mut data = b"--frame\r\n\r\n".to_vec();
    data.extend_from_slice(&body);
    data.extend_from_slice(b"\r\n--frame--");
    let mut p = BoundaryParser::with_capacity("frame", 64);
    let mut got = Vec::new();
    for chunk in data.chunks(7) {
        p.add_bytes(chunk);
        loop {
            match p.parse() {
                ParseResult::Ready(b) => got.push(b.to_vec()),
                ParseResult::NotReady | ParseResult::Done => break,
                other => panic!("unexpected {:?}", other),
            }
        }
    }
    let mut expected = b"\r\n".to_vec();
    expected.extend_from_slice(&body);
    assert_eq!(got, vec![expected]);
    expect_done(p.parse());
}

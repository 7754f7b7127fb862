use bytes::Bytes;
use hyper_multipart::{parse_header_line, Part};

#[test]
fn test_parse_header_lines() {
    let tests = [
        ("Content-Type: image/jpeg", "content-type", "image/jpeg"),
        ("Content-Length: 40669", "content-length", "40669"),
        (
            "X-Timestamp: 1550567095.266",
            "x-timestamp",
            "1550567095.266",
        ),
        (
            "X-SendTimestamp: 1550567095.439",
            "x-sendtimestamp",
            "1550567095.439",
        ),
        ("X-TimeDiff: 173", "x-timediff", "173"),
    ];

    for (header, exp_name, exp_val) in &tests {
        let (name, val) = parse_header_line(header).expect("Parse header line");

        assert_eq!(exp_name, &name.as_str());
        assert_eq!(
            exp_val,
            &val.to_str().expect("Converting header value to_str")
        );
    }
}

#[test]
fn header_line_without_colon_is_skipped() {
    assert!(parse_header_line("no colon here").is_none());
    assert!(parse_header_line("").is_none());
}

#[test]
fn header_line_value_keeps_later_colons() {
    let (name, val) = parse_header_line("  Date :  12:30:01 ").expect("parse");
    assert_eq!(name.as_str(), "date");
    assert_eq!(val.to_str().unwrap(), "12:30:01");
}

#[test]
fn header_line_with_invalid_name_is_skipped() {
    assert!(parse_header_line(": value").is_none());
    assert!(parse_header_line("bad name: value").is_none());
    assert!(parse_header_line("name: bad\u{7f}value").is_none());
}

#[test]
fn part_without_blank_line_is_all_body() {
    let part = Part::from_bytes(Bytes::from(&b"\r\nPart1"[..]));
    assert_eq!(part.body(), b"\r\nPart1");
    assert_eq!(part.body_len(), 7);
    let lines = part.header_lines();
    assert_eq!(lines.len(), 1);
    assert_eq!(lines[0].as_ref().unwrap(), &"");
    assert!(part.headers().is_empty());
}

#[test]
fn part_splits_at_first_blank_line() {
    let raw = b"Content-type: text/plain\r\nX-A:  b \r\n\r\nPart2\r\n\r\nmore";
    let part = Part::from_bytes(Bytes::from(&raw[..]));
    assert_eq!(part.body(), b"Part2\r\n\r\nmore");
    let lines: Vec<&str> = part.header_lines().into_iter().map(|l| l.unwrap()).collect();
    assert_eq!(lines, vec!["Content-type: text/plain", "X-A:  b"]);
    let headers = part.headers();
    assert_eq!(headers.get("content-type").unwrap(), "text/plain");
    assert_eq!(headers.get("x-a").unwrap(), "b");
    assert_eq!(headers.len(), 2);
    assert_eq!(part.into_body(), Bytes::from(&b"Part2\r\n\r\nmore"[..]));
}

#[test]
fn part_from_slice_matches_from_bytes() {
    let raw = b"A: 1\r\n\r\nbody";
    let a = Part::from_slice(&raw[..]);
    let b = Part::from_bytes(Bytes::from(&raw[..]));
    assert_eq!(a.body(), b.body());
    assert_eq!(a.body(), b"body");
    let la: Vec<&str> = a.header_lines().into_iter().map(|l| l.unwrap()).collect();
    assert_eq!(la, vec!["A: 1"]);
    let empty = Part::from_slice(b"");
    assert_eq!(empty.body_len(), 0);
}

#[test]
fn header_line_that_is_not_utf8_is_an_error() {
    let raw = b"A: 1\r\nB: \xff\xfe\r\n\r\nbody";
    let part = Part::from_bytes(Bytes::from(&raw[..]));
    let lines = part.header_lines();
    assert_eq!(lines.len(), 2);
    assert_eq!(lines[0].as_ref().unwrap(), &"A: 1");
    assert!(lines[1].is_err());
    let headers = part.headers();
    assert_eq!(headers.len(), 1);
    assert_eq!(headers.get("a").unwrap(), "1");
}

#[test]
fn later_header_replaces_earlier() {
    let raw = b"X: 1\nx: 2\n\r\n\r\n";
    let part = Part::from_bytes(Bytes::from(&raw[..]));
    let lines: Vec<&str> = part.header_lines().into_iter().map(|l| l.unwrap()).collect();
    assert_eq!(lines, vec!["X: 1", "x: 2", ""]);
    assert_eq!(part.headers().get("x").unwrap(), "2");
    assert_eq!(part.body_len(), 0);
}

#[test]
fn headers_skip_lines_without_colon() {
    let raw = b"Content-Type: image/jpeg\r\nno colon here\r\nContent-Length: 40669\r\n\r\nBODY";
    let part = Part::from_bytes(Bytes::from(&raw[..]));
    let headers = part.headers();
    assert_eq!(headers.len(), 2);
    assert_eq!(headers["content-type"], "image/jpeg");
    assert_eq!(headers["content-length"], "40669");
    assert_eq!(part.body(), b"BODY");
}

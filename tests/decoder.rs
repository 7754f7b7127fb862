use bytes::Bytes;
use hyper_multipart::media::{boundary_from_content_type, boundary_from_media_type};
use hyper_multipart::{Error, HeaderMap, MultipartDecoder, SourceEvent, Step, DEFAULT_BUFFER_CAP};

fn headers_with(content_type: &str) -> http::HeaderMap {
    let mut h = http::HeaderMap::new();
    h.insert(
        http::header::CONTENT_TYPE,
        http::HeaderValue::from_str(content_type).unwrap(),
    );
    h
}

fn decoder(boundary: &str) -> MultipartDecoder {
    let h = headers_with(&format!("multipart/x-mixed-replace; boundary={}", boundary));
    match MultipartDecoder::from_parts_with_capacity(&h, DEFAULT_BUFFER_CAP) {
        Ok(d) => d,
        Err(e) => panic!("unexpected {:?}", e),
    }
}

/// Feeds the chunks, stepping until the decoder wants more input after each one, then
/// reports the end of the source. Returns the bodies of the parts and the final step.
fn run(d: &mut MultipartDecoder, chunks: &[&[u8]]) -> (Vec<Vec<u8>>, Step) {
    let mut bodies = Vec::new();
    let mut events: Vec<SourceEvent> = chunks
        .iter()
        .map(|c| SourceEvent::Chunk(Bytes::from(*c)))
        .collect();
    events.push(SourceEvent::End);
    for event in events {
        let mut step = d.step(event);
        loop {
            match step {
                Step::Part(p) => {
                    bodies.push(p.body().to_vec());
                    step = d.step(SourceEvent::Pending);
                }
                Step::NotReady { .. } => break,
                other => return (bodies, other),
            }
        }
    }
    panic!("the decoder never finished");
}

const STREAM: &[u8] =
    b"--frame\r\nContent-Type: image/jpeg\r\n\r\nAAAA\r\n--frame\r\n\r\nBB\r\n--frame\r\nX: y\r\n\r\n\r\n--frame--";

#[test]
fn whole_stream_gives_parts_then_done() {
    let mut d = decoder("frame");
    let (bodies, end) = run(&mut d, &[STREAM]);
    assert_eq!(bodies, vec![b"AAAA".to_vec(), b"\r\nBB".to_vec(), b"".to_vec()]);
    assert!(matches!(end, Step::Done));
    assert!(matches!(d.step(SourceEvent::Pending), Step::Done));
    assert!(matches!(
        d.step(SourceEvent::Chunk(Bytes::from(&b"--frame\r\nZ\r\n--frame--"[..]))),
        Step::Done
    ));
}

#[test]
fn chunking_does_not_change_parts() {
    let mut whole = decoder("frame");
    let (expected, _) = run(&mut whole, &[STREAM]);
    for size in 1..STREAM.len() {
        let chunks: Vec<&[u8]> = STREAM.chunks(size).collect();
        let mut d = decoder("frame");
        let (bodies, end) = run(&mut d, &chunks);
        assert_eq!(bodies, expected, "chunk size {}", size);
        assert!(matches!(end, Step::Done));
    }
}

#[test]
fn source_closing_early_is_malformed() {
    let mut d = decoder("frame");
    let (bodies, end) = run(&mut d, &[&b"--frame\r\n\r\none\r\n--frame\r\n\r\ntwo"[..]]);
    assert_eq!(bodies, vec![b"\r\none".to_vec()]);
    assert!(matches!(end, Step::Failed(Error::MalformedMultipart(_))));
    assert!(matches!(
        d.step(SourceEvent::Pending),
        Step::Failed(Error::MalformedMultipart(_))
    ));
    assert!(matches!(
        d.step(SourceEvent::Chunk(Bytes::from(&b"\r\n--frame--"[..]))),
        Step::Failed(Error::MalformedMultipart(_))
    ));
}

#[test]
fn source_failure_is_reported() {
    let mut d = decoder("frame");
    assert!(matches!(
        d.step(SourceEvent::Chunk(Bytes::from(&b"--frame\r\n\r\none\r\n--frame\r\n"[..]))),
        Step::Part(_)
    ));
    match d.step(SourceEvent::Failed("connection reset".to_string())) {
        Step::Failed(Error::InnerStream(msg)) => assert_eq!(msg, "connection reset"),
        _ => panic!("expected the source's error"),
    }
    match d.step(SourceEvent::Chunk(Bytes::from(&b"\r\n\r\ntwo\r\n--frame\r\n"[..]))) {
        Step::Failed(Error::InnerStream(msg)) => assert_eq!(msg, "connection reset"),
        _ => panic!("expected the same failure again"),
    }
}

#[test]
fn pending_source_is_not_polled_again() {
    let mut d = decoder("frame");
    assert!(matches!(
        d.step(SourceEvent::Pending),
        Step::NotReady { poll_again: false }
    ));
    assert!(matches!(
        d.step(SourceEvent::Chunk(Bytes::from(&b"--fra"[..]))),
        Step::NotReady { poll_again: true }
    ));
}

#[test]
fn bad_sentinel_fails_the_stream() {
    let mut d = decoder("frame");
    let (bodies, end) = run(&mut d, &[&b"--frame\r\n\r\none\r\n--frameXX"[..]]);
    assert_eq!(bodies, vec![b"\r\none".to_vec()]);
    assert!(matches!(end, Step::Failed(Error::MalformedMultipart(_))));
}

#[test]
fn missing_content_type() {
    let h = http::HeaderMap::new();
    assert!(matches!(
        MultipartDecoder::from_parts_with_capacity(&h, 16),
        Err(Error::ContentTypeMissing)
    ));
    assert!(matches!(
        boundary_from_content_type(None),
        Err(Error::ContentTypeMissing)
    ));
}

#[test]
fn non_multipart_content_type() {
    let h = headers_with("text/plain");
    assert!(matches!(
        MultipartDecoder::from_parts_with_capacity(&h, 16),
        Err(Error::NotMultipart)
    ));
}

#[test]
fn invalid_content_type() {
    assert!(matches!(
        boundary_from_content_type(Some("not a media type")),
        Err(Error::InvalidMimeType(_))
    ));
}

#[test]
fn boundary_parameter_missing() {
    assert!(matches!(
        boundary_from_content_type(Some("multipart/mixed")),
        Err(Error::MalformedMultipart(_))
    ));
    assert!(matches!(
        boundary_from_media_type("multipart", None),
        Err(Error::MalformedMultipart(_))
    ));
}

#[test]
fn boundary_is_read_from_content_type() {
    match boundary_from_content_type(Some("multipart/x-mixed-replace; boundary=myboundary")) {
        Ok(b) => assert_eq!(b, "myboundary"),
        Err(e) => panic!("unexpected {:?}", e),
    }
    match boundary_from_media_type("multipart", Some("xyz")) {
        Ok(b) => assert_eq!(b, "xyz"),
        Err(e) => panic!("unexpected {:?}", e),
    }
    assert!(matches!(
        boundary_from_media_type("image", Some("xyz")),
        Err(Error::NotMultipart)
    ));
}

#[test]
fn header_map_lookup() {
    let h = headers_with("multipart/mixed; boundary=q");
    assert_eq!(h.get_value("content-type"), Some("multipart/mixed; boundary=q"));
    assert_eq!(h.get_value("Content-Type"), Some("multipart/mixed; boundary=q"));
    assert_eq!(h.get_value("x-missing"), None);
}

#[test]
fn error_descriptions() {
    assert_eq!(
        Error::ContentTypeMissing.description(),
        "Content type header was missing from http response"
    );
    assert_eq!(
        Error::NotMultipart.description(),
        "The Http response was not a multipart"
    );
    assert_eq!(
        Error::MalformedMultipart(String::new()).description(),
        "Ran into errors when parsing multipart"
    );
    assert_eq!(
        Error::InnerStream(String::new()).description(),
        "Http error thrown by the underlying layer"
    );
}

#[test]
fn non_multipart_with_boundary_parameter() {
    let h = headers_with("text/html; boundary=x");
    assert!(matches!(
        MultipartDecoder::from_parts_with_capacity(&h, 16),
        Err(Error::NotMultipart)
    ));
    assert!(matches!(
        boundary_from_content_type(Some("image/jpeg")),
        Err(Error::NotMultipart)
    ));
}

#[test]
fn multipart_without_boundary_via_headers() {
    let h = headers_with("multipart/x-mixed-replace");
    assert!(matches!(
        MultipartDecoder::from_parts_with_capacity(&h, 16),
        Err(Error::MalformedMultipart(_))
    ));
}

#[test]
fn header_map_lookup_ignores_case_and_takes_first_value() {
    let mut h = http::HeaderMap::new();
    h.append("x-a", http::HeaderValue::from_static("first"));
    h.append("x-a", http::HeaderValue::from_static("second"));
    h.insert("x-bin", http::HeaderValue::from_bytes(b"\xff").unwrap());
    assert_eq!(h.get_value("X-A"), Some("first"));
    assert_eq!(h.get_value("x-a"), Some("first"));
    assert_eq!(h.get_value("x-bin"), None);
    assert_eq!(h.get_value("bad name"), None);
}

use reqline::parser::RequestParser;

const CAP: usize = 512;

/// Feeds `input` in chunks of `chunk` bytes; returns the parser and whether a
/// fatal error was reported.
fn feed_chunked(input: &[u8], chunk: usize) -> (RequestParser, Vec<u8>, bool) {
    let mut parser = RequestParser::default();
    let mut buf = vec![0u8; CAP];
    let mut pos = 0;
    while pos < input.len() {
        let n = chunk.min(input.len() - pos);
        let used = parser.used_space();
        assert!(used + n <= CAP);
        buf[used..used + n].copy_from_slice(&input[pos..pos + n]);
        match parser.feed(&mut buf, n) {
            Err(true) => return (parser, buf, true),
            _ => {}
        }
        pos += n;
    }
    (parser, buf, false)
}

fn parse_ok(input: &[u8]) -> (Vec<u8>, Vec<u8>) {
    let (parser, buf, fatal) = feed_chunked(input, input.len());
    assert!(!fatal, "unexpected fatal error");
    match parser {
        RequestParser::Headers { method_end, path_end, .. } => (
            buf[..method_end].to_vec(),
            buf[method_end..path_end].to_vec(),
        ),
        _ => panic!("request line not complete"),
    }
}

fn parse_fatal(input: &[u8]) -> bool {
    let (_, _, fatal) = feed_chunked(input, input.len());
    fatal
}

#[test]
fn simple_get_parses() {
    let (method, path) = parse_ok(b"GET /index.html HTTP/1.1\r\n");
    assert_eq!(method, b"GET");
    assert_eq!(path, b"/index.html");
}

#[test]
fn byte_at_a_time_matches_all_at_once() {
    let line = b"POST /some/long-ish_path?x=1&y=2 HTTP/1.0\r\n";
    let (p_whole, buf_whole, f_whole) = feed_chunked(line, line.len());
    let (p_bytes, buf_bytes, f_bytes) = feed_chunked(line, 1);
    assert!(!f_whole && !f_bytes);
    match (p_whole, p_bytes) {
        (
            RequestParser::Headers { method_end: m1, path_end: p1, line_end: l1 },
            RequestParser::Headers { method_end: m2, path_end: p2, line_end: l2 },
        ) => {
            assert_eq!((m1, p1, l1), (m2, p2, l2));
            assert_eq!(buf_whole[..p1], buf_bytes[..p2]);
        }
        _ => panic!("both deliveries must complete"),
    }
}

#[test]
fn odd_chunk_sizes_match() {
    let line = b"GET /a%2Fb%41c?q=%7E HTTP/1.234\r\n";
    let (method, path) = parse_ok(line);
    for chunk in [1, 2, 3, 5, 7, 11] {
        let (parser, buf, fatal) = feed_chunked(line, chunk);
        assert!(!fatal);
        match parser {
            RequestParser::Headers { method_end, path_end, .. } => {
                assert_eq!(buf[..method_end], method[..]);
                assert_eq!(buf[method_end..path_end], path[..]);
            }
            _ => panic!("chunk size {chunk} did not complete"),
        }
    }
}

#[test]
fn lowercase_method_normalizes() {
    let (upper, path_u) = parse_ok(b"GET /x HTTP/1.1\r\n");
    let (lower, path_l) = parse_ok(b"get /x HTTP/1.1\r\n");
    let (mixed, path_m) = parse_ok(b"gEt /x HTTP/1.1\r\n");
    assert_eq!(upper, b"GET");
    assert_eq!(lower, upper);
    assert_eq!(mixed, upper);
    assert_eq!(path_u, path_l);
    assert_eq!(path_u, path_m);
}

#[test]
fn method_with_digit_is_fatal() {
    assert!(parse_fatal(b"G3T /x HTTP/1.1\r\n"));
}

#[test]
fn percent_escapes_decode() {
    let (_, path) = parse_ok(b"GET /a%2Fb HTTP/1.1\r\n");
    assert_eq!(path, b"/a/b");
    let (_, path) = parse_ok(b"GET /%41 HTTP/1.1\r\n");
    assert_eq!(path, b"/A");
    let (_, path) = parse_ok(b"GET /%61%7e HTTP/1.1\r\n");
    assert_eq!(path, b"/a~");
}

#[test]
fn percent_bad_digit_is_fatal() {
    assert!(parse_fatal(b"GET /a%2G HTTP/1.1\r\n"));
    assert!(parse_fatal(b"GET /%zz HTTP/1.1\r\n"));
}

#[test]
fn percent_escape_split_across_reads_decodes() {
    let line = b"GET /%41 HTTP/1.1\r\n";
    for chunk in [1, 2] {
        let (parser, buf, fatal) = feed_chunked(line, chunk);
        assert!(!fatal);
        match parser {
            RequestParser::Headers { method_end, path_end, .. } => {
                assert_eq!(&buf[method_end..path_end], b"/A");
            }
            _ => panic!("split escape did not complete"),
        }
    }
}

#[test]
fn question_mark_legal_once() {
    let (_, path) = parse_ok(b"GET /a?b HTTP/1.1\r\n");
    assert_eq!(path, b"/a?b");
    assert!(parse_fatal(b"GET /a?b?c HTTP/1.1\r\n"));
}

#[test]
fn query_separators_only_inside_query() {
    assert!(parse_fatal(b"GET /a&b HTTP/1.1\r\n"));
    assert!(parse_fatal(b"GET /a=b HTTP/1.1\r\n"));
    let (_, path) = parse_ok(b"GET /a?b&c=d HTTP/1.1\r\n");
    assert_eq!(path, b"/a?b&c=d");
}

#[test]
fn version_literal_mismatch_is_fatal() {
    assert!(parse_fatal(b"GET / HTTP/2.0\r\n"));
    assert!(parse_fatal(b"GET / HTTP/1,1\r\n"));
    assert!(parse_fatal(b"GET / http/1.1\r\n"));
}

#[test]
fn empty_minor_version_is_accepted() {
    let (method, path) = parse_ok(b"GET / HTTP/1.\r\n");
    assert_eq!(method, b"GET");
    assert_eq!(path, b"/");
}

#[test]
fn missing_crlf_is_fatal() {
    assert!(parse_fatal(b"GET / HTTP/1.1\n"));
    assert!(parse_fatal(b"GET / HTTP/1.1\rX"));
}

#[test]
fn illegal_path_byte_is_fatal() {
    assert!(parse_fatal(b"GET /a\x00b HTTP/1.1\r\n"));
    assert!(parse_fatal(b"GET /a\"b HTTP/1.1\r\n"));
}

#[test]
fn incomplete_input_keeps_state() {
    let (parser, _, fatal) = feed_chunked(b"GET /par", 8);
    assert!(!fatal);
    assert!(!parser.is_done());
    match parser {
        RequestParser::Path { method_end, path_end, .. } => {
            assert_eq!(method_end, 3);
            assert_eq!(path_end, 7); // space elided, '/par' kept
        }
        _ => panic!("expected to still be reading the path"),
    }
}

#[test]
fn used_space_tracks_consumed_bytes() {
    let mut parser = RequestParser::default();
    let mut buf = vec![0u8; CAP];
    assert_eq!(parser.used_space(), 0);
    buf[..2].copy_from_slice(b"GE");
    assert_eq!(parser.feed(&mut buf, 2), Err(false));
    assert_eq!(parser.used_space(), 2);
    buf[2..4].copy_from_slice(b"T ");
    assert_eq!(parser.feed(&mut buf, 2), Err(false));
    // the space is elided: only the three method bytes stay consumed
    assert_eq!(parser.used_space(), 3);
}

#[test]
fn on_read_closes_on_transport_error() {
    let mut parser = RequestParser::default();
    let mut buf = vec![0u8; CAP];
    assert!(parser.on_read(&mut buf, None));
}

#[test]
fn on_read_closes_on_fatal_parse_only() {
    let mut parser = RequestParser::default();
    let mut buf = vec![0u8; CAP];
    let line = b"GET / HTTP/1.1\r\n";
    buf[..line.len()].copy_from_slice(line);
    assert!(!parser.on_read(&mut buf, Some(line.len())));
    assert!(parser.is_done());

    let mut parser = RequestParser::default();
    let mut buf = vec![0u8; CAP];
    let bad = b"GET /a&b HTTP/1.1\r\n";
    buf[..bad.len()].copy_from_slice(bad);
    assert!(parser.on_read(&mut buf, Some(bad.len())));
}

#[test]
fn zero_byte_read_keeps_connection() {
    let mut parser = RequestParser::default();
    let mut buf = vec![0u8; CAP];
    assert!(!parser.on_read(&mut buf, Some(0)));
    assert_eq!(parser.used_space(), 0);
}

#[test]
fn bytes_after_request_line_are_ignored() {
    let (parser, buf, fatal) = feed_chunked(b"GET /x HTTP/1.1\r\nHost: nowhere\r\n", 64);
    assert!(!fatal);
    match parser {
        RequestParser::Headers { method_end, path_end, .. } => {
            assert_eq!(&buf[..method_end], b"GET");
            assert_eq!(&buf[method_end..path_end], b"/x");
        }
        _ => panic!("expected completion"),
    }
}

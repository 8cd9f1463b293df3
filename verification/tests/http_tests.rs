use http_server::http::{HttpMethod, HttpRequest, HttpResponse, ResponseBody};
use http_server::server::encode_response;
use http_server::strmap::StrMap;

fn header(req: &HttpRequest, name: &str) -> Option<String> {
    req.headers.get(&name.to_string()).cloned()
}

fn chunked_request() -> HttpRequest {
    HttpRequest {
        method: HttpMethod::POST,
        path: "/upload".to_string(),
        version: "HTTP/1.1".to_string(),
        headers: StrMap::new(),
        body: Vec::new(),
        host: None,
        chunked: true,
        chunks: Vec::new(),
    }
}

#[test]
fn parse_reads_request_line_and_headers() {
    let raw = b"GET /index.html HTTP/1.1\r\nHost: localhost:8080\r\nUser-Agent: test\r\n\r\n";
    let req = HttpRequest::parse(raw).unwrap();
    assert_eq!(req.method, HttpMethod::GET);
    assert_eq!(req.path, "/index.html");
    assert_eq!(req.version, "HTTP/1.1");
    assert_eq!(req.host, Some("localhost:8080".to_string()));
    assert_eq!(header(&req, "host"), Some("localhost:8080".to_string()));
    assert_eq!(header(&req, "user-agent"), Some("test".to_string()));
    assert_eq!(header(&req, "Host"), None);
    assert!(req.body.is_empty());
    assert!(!req.chunked);
    assert!(req.chunks.is_empty());
}

#[test]
fn parse_joins_body_lines_with_line_feeds() {
    let raw = b"POST /submit HTTP/1.1\r\nContent-Type: text/plain\r\n\r\nline1\r\nline2";
    let req = HttpRequest::parse(raw).unwrap();
    assert_eq!(req.method, HttpMethod::POST);
    assert_eq!(req.body, b"line1\nline2".to_vec());
    assert_eq!(header(&req, "content-type"), Some("text/plain".to_string()));
}

#[test]
fn parse_keeps_the_later_of_two_equal_headers() {
    let raw = b"GET / HTTP/1.1\r\nX-A: one\r\nx-a: two\r\n\r\n";
    let req = HttpRequest::parse(raw).unwrap();
    assert_eq!(header(&req, "x-a"), Some("two".to_string()));
    assert_eq!(req.headers.len(), 1);
}

#[test]
fn parse_refuses_empty_request() {
    let r = HttpRequest::parse(b"");
    assert_eq!(r.err(), Some("Empty request".to_string()));
}

#[test]
fn parse_refuses_short_request_line() {
    let r = HttpRequest::parse(b"GET /\r\n\r\n");
    assert_eq!(r.err(), Some("Invalid request line".to_string()));
}

#[test]
fn parse_marks_unknown_method_unsupported() {
    let req = HttpRequest::parse(b"PATCH /x HTTP/1.1\r\n\r\n").unwrap();
    assert_eq!(req.method, HttpMethod::UNSUPPORTED);
    assert_eq!(req.path, "/x");
}

#[test]
fn parse_of_chunked_body_reads_lines_without_carriage_returns() {
    // The body is rebuilt from its lines, so the size line loses its `\r\n`.
    let raw = b"POST / HTTP/1.1\r\nTransfer-Encoding: chunked\r\n\r\n5\r\nhello\r\n0\r\n\r\n";
    let r = HttpRequest::parse(raw);
    assert_eq!(r.err(), Some("Invalid chunk size".to_string()));
}

#[test]
fn append_chunk_refuses_plain_request() {
    let mut req = chunked_request();
    req.chunked = false;
    let r = req.append_chunk(b"5\r\nhello\r\n0\r\n\r\n");
    assert_eq!(r, Err("Request is not chunked".to_string()));
    assert!(req.chunks.is_empty());
}

#[test]
fn append_chunk_reads_chunks_and_the_last_chunk() {
    let mut req = chunked_request();
    assert!(!req.is_chunked_request_complete());
    let r = req.append_chunk(b"5\r\nhello\r\n6\r\n world\r\n0\r\n\r\n");
    assert_eq!(r, Ok(()));
    assert_eq!(req.chunks, vec![b"hello".to_vec(), b" world".to_vec(), Vec::new()]);
    assert!(req.is_chunked_request_complete());
}

#[test]
fn append_chunk_without_last_chunk_leaves_request_incomplete() {
    let mut req = chunked_request();
    assert_eq!(req.append_chunk(b"3\r\nabc\r\n"), Ok(()));
    assert_eq!(req.chunks, vec![b"abc".to_vec()]);
    assert!(!req.is_chunked_request_complete());
    assert_eq!(req.append_chunk(b"0\r\n\r\n"), Ok(()));
    assert!(req.is_chunked_request_complete());
}

#[test]
fn append_chunk_reports_incomplete_chunk() {
    let mut req = chunked_request();
    let r = req.append_chunk(b"2\r\nok\r\nA\r\nshort\r\n");
    assert_eq!(r, Err("Incomplete chunk".to_string()));
    assert_eq!(req.chunks, vec![b"ok".to_vec()]);
}

#[test]
fn append_chunk_reports_invalid_size() {
    let mut req = chunked_request();
    let r = req.append_chunk(b"zz\r\nabc\r\n");
    assert_eq!(r, Err("Invalid chunk size".to_string()));
    assert!(req.chunks.is_empty());
}

#[test]
fn append_chunk_reads_lower_case_hex_sizes() {
    let mut req = chunked_request();
    let mut data = b"a\r\n".to_vec();
    data.extend_from_slice(b"0123456789\r\n0\r\n\r\n");
    assert_eq!(req.append_chunk(&data), Ok(()));
    assert_eq!(req.chunks, vec![b"0123456789".to_vec(), Vec::new()]);
}

#[test]
fn plain_request_is_always_complete() {
    let mut req = chunked_request();
    req.chunked = false;
    assert!(req.is_chunked_request_complete());
}

#[test]
fn response_new_sets_type_and_length() {
    let resp = HttpResponse::new(200, b"hello".to_vec(), "text/plain");
    assert_eq!(resp.status, 200);
    assert_eq!(resp.headers.get(&"Content-Type".to_string()), Some(&"text/plain".to_string()));
    assert_eq!(resp.headers.get(&"Content-Length".to_string()), Some(&"5".to_string()));
    assert!(matches!(resp.body, ResponseBody::Whole(ref b) if b == b"hello"));
}

#[test]
fn response_new_chunked_has_no_length() {
    let resp = HttpResponse::new_chunked(200, vec![b"ab".to_vec()], "text/html");
    assert_eq!(resp.headers.get(&"Content-Length".to_string()), None);
    assert_eq!(resp.headers.get(&"Content-Type".to_string()), Some(&"text/html".to_string()));
    assert!(matches!(resp.body, ResponseBody::Chunked(ref c) if c.len() == 1));
}

#[test]
fn encode_whole_response() {
    let resp = HttpResponse::new(404, b"gone".to_vec(), "text/plain");
    let bytes = encode_response(&resp);
    assert_eq!(
        bytes,
        b"HTTP/1.1 404 Not Found\r\nContent-Type: text/plain\r\nContent-Length: 4\r\n\r\ngone".to_vec()
    );
}

#[test]
fn encode_chunked_response() {
    let big = vec![b'x'; 26];
    let resp = HttpResponse::new_chunked(200, vec![b"hello".to_vec(), big.clone()], "text/html");
    let bytes = encode_response(&resp);
    let mut expected = b"HTTP/1.1 200 OK\r\nContent-Type: text/html\r\n\r\nTransfer-Encoding: chunked\r\n\r\n5\r\nhello\r\n1A\r\n".to_vec();
    expected.extend_from_slice(&big);
    expected.extend_from_slice(b"\r\n0\r\n\r\n");
    assert_eq!(bytes, expected);
}

#[test]
fn written_chunks_are_read_back_by_append_chunk() {
    let chunks = vec![b"hello".to_vec(), vec![b'y'; 300], b"!".to_vec()];
    let resp = HttpResponse::new_chunked(200, chunks.clone(), "text/plain");
    let bytes = encode_response(&resp);
    let marker = b"Transfer-Encoding: chunked\r\n\r\n";
    let start = bytes.windows(marker.len()).position(|w| w == marker).unwrap() + marker.len();
    let mut req = chunked_request();
    assert_eq!(req.append_chunk(&bytes[start..]), Ok(()));
    let mut expected = chunks.clone();
    expected.push(Vec::new());
    assert_eq!(req.chunks, expected);
    assert!(req.is_chunked_request_complete());
}

#[test]
fn method_names() {
    assert_eq!(HttpMethod::GET.name(), "GET");
    assert_eq!(HttpMethod::POST.name(), "POST");
    assert_eq!(HttpMethod::DELETE.name(), "DELETE");
    assert_eq!(HttpMethod::UNSUPPORTED.name(), "UNSUPPORTED");
}

#[test]
fn chunked_request_without_body_waits_for_chunks() {
    let raw = b"POST /u HTTP/1.1\r\nTransfer-Encoding: Chunked\r\n\r\n";
    let mut req = HttpRequest::parse(raw).unwrap();
    assert!(req.chunked);
    assert!(req.chunks.is_empty());
    assert!(req.body.is_empty());
    assert!(!req.is_chunked_request_complete());
    assert_eq!(req.append_chunk(b"4\r\ndata\r\n0\r\n\r\n"), Ok(()));
    assert!(req.is_chunked_request_complete());
}

#[test]
fn header_lines_without_separator_are_skipped() {
    let raw = b"GET / HTTP/1.1\r\nBroken\r\nX: 1\r\n\r\n";
    let req = HttpRequest::parse(raw).unwrap();
    assert_eq!(req.headers.len(), 1);
    assert_eq!(header(&req, "x"), Some("1".to_string()));
}

#[test]
fn request_line_method_reads_back() {
    for m in [HttpMethod::GET, HttpMethod::POST, HttpMethod::DELETE, HttpMethod::UNSUPPORTED] {
        let raw = format!("{} /p HTTP/1.1\r\n\r\n", m.name()).into_bytes();
        let req = HttpRequest::parse(&raw).unwrap();
        assert_eq!(req.method, m);
        assert_eq!(req.path, "/p");
    }
    for w in ["get", "PUT", "Post"] {
        let raw = format!("{} /p HTTP/1.1\r\n\r\n", w).into_bytes();
        assert_eq!(HttpRequest::parse(&raw).unwrap().method, HttpMethod::UNSUPPORTED);
    }
}

#[test]
fn written_chunks_read_back_even_with_line_ends_inside() {
    let mut req = chunked_request();
    let r = req.append_chunk(b"4\r\na\r\nb\r\n3\r\nxyz\r\n0\r\n\r\n");
    assert_eq!(r, Ok(()));
    assert_eq!(req.chunks, vec![b"a\r\nb".to_vec(), b"xyz".to_vec(), Vec::new()]);
}

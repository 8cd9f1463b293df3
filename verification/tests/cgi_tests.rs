use http_server::cgi::{CGIHandler, CHUNK_SIZE};
use http_server::http::ResponseBody;

fn handler() -> CGIHandler {
    CGIHandler::new("/usr/bin/php".to_string(), "/usr/bin/python3".to_string())
}

#[test]
fn interpreter_by_extension() {
    let h = handler();
    assert_eq!(h.interpreter_for("scripts/a.php").ok(), Some("/usr/bin/php".to_string()));
    assert_eq!(h.interpreter_for("scripts/b.py").ok(), Some("/usr/bin/python3".to_string()));
}

#[test]
fn unsupported_script_is_answered_400() {
    let resp = handler().interpreter_for("scripts/c.rb").err().unwrap();
    assert_eq!(resp.status, 400);
    assert!(matches!(resp.body, ResponseBody::Whole(ref b) if b == b"Unsupported CGI script type"));
    assert_eq!(resp.headers.get(&"Content-Length".to_string()), Some(&"27".to_string()));
}

#[test]
fn small_output_is_sent_whole() {
    let resp = handler().response_for_output(true, b"<p>hi</p>".to_vec(), Vec::new());
    assert_eq!(resp.status, 200);
    assert_eq!(resp.headers.get(&"Content-Type".to_string()), Some(&"text/html".to_string()));
    assert!(matches!(resp.body, ResponseBody::Whole(ref b) if b == b"<p>hi</p>"));
}

#[test]
fn large_output_is_sent_in_chunks() {
    let out = vec![b'a'; 1_000_001];
    let resp = handler().response_for_output(true, out.clone(), Vec::new());
    assert_eq!(resp.status, 200);
    assert_eq!(resp.headers.get(&"Content-Length".to_string()), None);
    match resp.body {
        ResponseBody::Chunked(chunks) => {
            assert_eq!(chunks.len(), 123);
            assert!(chunks[..122].iter().all(|c| c.len() == CHUNK_SIZE));
            assert_eq!(chunks[122].len(), 1_000_001 - 122 * CHUNK_SIZE);
            assert_eq!(chunks.concat(), out);
        }
        ResponseBody::Whole(_) => panic!("expected chunks"),
    }
}

#[test]
fn failed_script_sends_its_errors() {
    let resp = handler().response_for_output(false, b"ignored".to_vec(), b"boom".to_vec());
    assert_eq!(resp.status, 500);
    assert_eq!(resp.headers.get(&"Content-Type".to_string()), Some(&"text/plain".to_string()));
    assert!(matches!(resp.body, ResponseBody::Whole(ref b) if b == b"boom"));
}

#[test]
fn chunks_of_eight_kilobytes() {
    let data: Vec<u8> = (0..20000u32).map(|i| (i % 251) as u8).collect();
    let chunks = handler().create_chunks(&data);
    assert_eq!(chunks.iter().map(|c| c.len()).collect::<Vec<_>>(), vec![8192, 8192, 3616]);
    assert_eq!(chunks.concat(), data);
    assert!(handler().create_chunks(&[]).is_empty());
}

use runner::http::{response, route, select_port, Route};
use runner::paths::writable_parent;
use runner::uname::uname_output;
use runner::websocket::{frame_header, frame_length, frame_start, unmask, websocket_accept, websocket_key};

#[test]
fn routes() {
    assert_eq!(route("GET / HTTP/1.1\r\nHost: x\r\n\r\n"), Route::Index);
    assert_eq!(route("GET /report HTTP/1.1\r\n"), Route::Report);
    assert_eq!(route("GET /ws HTTP/1.1\r\n"), Route::WebSocket);
    assert_eq!(route("POST / HTTP/1.1\r\n"), Route::NotFound);
    assert_eq!(route("GET /other"), Route::NotFound);
    assert_eq!(route("GET"), Route::BadRequest);
    assert_eq!(route(""), Route::BadRequest);
    assert_eq!(route("\nGET / HTTP/1.1"), Route::BadRequest);
    assert_eq!(route("  GET \t /  "), Route::Index);
}

#[test]
fn responses() {
    let r = response("200 OK", "text/plain", "héllo");
    assert_eq!(
        String::from_utf8(r).unwrap(),
        "HTTP/1.1 200 OK\r\nContent-Type: text/plain\r\nContent-Length: 6\r\nConnection: close\r\n\r\nhéllo"
    );
    let r = response("404 Not Found", "text/plain", "");
    assert!(String::from_utf8(r).unwrap().ends_with("Content-Length: 0\r\nConnection: close\r\n\r\n"));
}

#[test]
fn ports() {
    assert_eq!(select_port(Some("9000"), Some("7000")), 9000);
    assert_eq!(select_port(Some("x"), Some("7000")), 7000);
    assert_eq!(select_port(Some("70000"), None), 8080);
    assert_eq!(select_port(None, None), 8080);
    assert_eq!(select_port(None, Some("+81")), 81);
}

#[test]
fn handshake_key_and_answer() {
    let req = "GET /ws HTTP/1.1\r\nHost: x\r\nsec-websocket-key:  dGhlIHNhbXBsZSBub25jZQ== \r\n\r\n";
    let key = websocket_key(req).unwrap();
    assert_eq!(key, "dGhlIHNhbXBsZSBub25jZQ==");
    assert_eq!(websocket_accept(&key), "s3pPLMBiTxaQ9kYGzzhZRbK+xOo=");
    assert_eq!(websocket_key("GET /ws HTTP/1.1\r\nHost: x\r\n"), None);
    assert_eq!(websocket_key("Sec-WebSocket-Key-X: a\nSEC-WEBSOCKET-KEY:b:c"), Some("b:c".to_string()));
}

#[test]
fn frame_headers() {
    assert_eq!(frame_header(1, 5), vec![0x81, 5]);
    assert_eq!(frame_header(8, 0), vec![0x88, 0]);
    assert_eq!(frame_header(1, 300), vec![0x81, 126, 1, 44]);
    assert_eq!(frame_header(1, 70000), vec![0x81, 127, 0, 0, 0, 0, 0, 1, 17, 112]);
    for (op, len) in [(1u8, 0usize), (1, 125), (2, 126), (1, 65535), (1, 65536), (9, 1 << 40)] {
        let h = frame_header(op, len);
        let f = frame_start(h[0], h[1]);
        assert!(!f.masked);
        assert_eq!(f.close, op == 8);
        assert_eq!(h.len(), 2 + f.length_bytes);
        assert_eq!(frame_length(&f, &h[2..]), len as u64);
    }
    let f = frame_start(0x81, 0x85);
    assert!(f.masked && !f.close);
    assert_eq!(frame_length(&f, &[]), 5);
}

#[test]
fn unmasking() {
    let mask = [0x37, 0xfa, 0x21, 0x3d];
    let mut payload = vec![0x7f, 0x9f, 0x4d, 0x51, 0x58];
    unmask(&mut payload, mask);
    assert_eq!(String::from_utf8(payload.clone()).unwrap(), "Hello");
    unmask(&mut payload, mask);
    assert_eq!(payload, vec![0x7f, 0x9f, 0x4d, 0x51, 0x58]);
}

#[test]
fn uname_answers() {
    let args = |a: &[&str]| a.iter().map(|s| s.to_string()).collect::<Vec<_>>();
    assert_eq!(uname_output(&args(&[])), Ok("Linux".to_string()));
    assert_eq!(uname_output(&args(&["-a"])), Ok("Linux wasix 0.0.0 wasix wasm32 GNU/Linux".to_string()));
    assert_eq!(uname_output(&args(&["--machine"])), Ok("wasm32".to_string()));
    assert_eq!(uname_output(&args(&["-o"])), Ok("GNU/Linux".to_string()));
    assert_eq!(uname_output(&args(&["-r"])), Ok("0.0.0".to_string()));
    assert_eq!(uname_output(&args(&["-v"])), Ok("wasix".to_string()));
    assert_eq!(uname_output(&args(&["-n"])), Ok("wasix".to_string()));
    assert_eq!(uname_output(&args(&["-s"])), Ok("Linux".to_string()));
    assert_eq!(
        uname_output(&args(&["-a", "-m"])),
        Err("uname: unsupported arguments: -a -m".to_string())
    );
    assert_eq!(uname_output(&args(&["-x"])), Err("uname: unsupported arguments: -x".to_string()));
}

#[test]
fn parents_agree_with_std_path() {
    for p in [
        "/app/report.json", "report.json", "/a", "/", "", ".", "./", "./a", "a/b/", "a/./b/.", "../a",
        "a//b", "/./a", "a/..", "..", "/.", "./.", "a/b/c", ".a/b",
    ] {
        let expected = std::path::Path::new(p)
            .parent()
            .filter(|q| !q.as_os_str().is_empty())
            .map(|q| q.to_string_lossy().into_owned());
        assert_eq!(writable_parent(p), expected, "{:?}", p);
    }
}

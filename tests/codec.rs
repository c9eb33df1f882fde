use snake_online::frame::{FrameError, WebSocketFrame};
use snake_online::http::{websocket_accept_key, HttpMethod, HttpResponse};
use snake_online::protocol::{parse_client_message, receive, WireUnit, MAX_BUFFER_LEN};

fn payload_of(len: usize) -> Vec<u8> {
    (0..len).map(|i| (i % 251) as u8).collect()
}

fn masked_frame(payload: &[u8], key: [u8; 4]) -> Vec<u8> {
    let mut f = vec![0x81u8];
    let n = payload.len();
    if n <= 125 {
        f.push(0x80 | n as u8);
    } else if n <= 65535 {
        f.push(0x80 | 126);
        f.extend_from_slice(&(n as u16).to_be_bytes());
    } else {
        f.push(0x80 | 127);
        f.extend_from_slice(&(n as u64).to_be_bytes());
    }
    f.extend_from_slice(&key);
    f.extend(payload.iter().enumerate().map(|(i, b)| b ^ key[i % 4]));
    f
}

#[test]
fn encode_then_decode_round_trips_at_boundaries() {
    for len in [0usize, 1, 125, 126, 127, 65535, 65536, 70000] {
        let p = payload_of(len);
        let mut frame = WebSocketFrame::to_websocket(p.clone());
        let decoded = WebSocketFrame::parse(&mut frame).unwrap();
        assert_eq!(decoded, p, "length {}", len);
        assert!(frame.is_empty());
    }
}

#[test]
fn encoded_headers_use_the_length_escapes() {
    assert_eq!(WebSocketFrame::to_websocket(vec![7; 3]), vec![0x81, 3, 7, 7, 7]);
    let f = WebSocketFrame::to_websocket(vec![0; 126]);
    assert_eq!(&f[..4], &[0x81, 126, 0, 126]);
    let f = WebSocketFrame::to_websocket(vec![0; 65536]);
    assert_eq!(&f[..10], &[0x81, 127, 0, 0, 0, 0, 0, 1, 0, 0]);
    assert_eq!(f.len(), 10 + 65536);
}

#[test]
fn masked_frames_decode_to_the_payload() {
    for len in [0usize, 5, 125, 126, 300, 65536] {
        for key in [[0u8, 0, 0, 0], [1, 2, 3, 4], [0xff, 0x80, 0x37, 0x00]] {
            let p = payload_of(len);
            let mut f = masked_frame(&p, key);
            assert_eq!(WebSocketFrame::parse(&mut f).unwrap(), p);
            assert!(f.is_empty());
        }
    }
}

#[test]
fn every_proper_prefix_is_incomplete() {
    let p = payload_of(200);
    let full = masked_frame(&p, [9, 8, 7, 6]);
    for k in 0..full.len() {
        let mut prefix = full[..k].to_vec();
        assert_eq!(WebSocketFrame::parse(&mut prefix), Err(FrameError::Incomplete), "prefix {}", k);
        assert_eq!(prefix, full[..k].to_vec());
    }
    let mut whole = full.clone();
    assert_eq!(WebSocketFrame::parse(&mut whole).unwrap(), p);
}

#[test]
fn split_delivery_through_the_receive_buffer() {
    let p = payload_of(40);
    let full = masked_frame(&p, [1, 3, 5, 7]);
    for split in 1..full.len() {
        let mut buffer = Vec::new();
        assert!(matches!(receive(&mut buffer, &full[..split]), WireUnit::Incomplete));
        assert_eq!(buffer.len(), split);
        match receive(&mut buffer, &full[split..]) {
            WireUnit::Payload(got) => assert_eq!(got, p),
            other => panic!("split {}: {:?}", split, other),
        }
        assert!(buffer.is_empty());
    }
}

#[test]
fn pipelined_frames_leave_the_next_frame_intact() {
    let a = masked_frame(b"first", [1, 1, 1, 1]);
    let b = masked_frame(b"second", [2, 2, 2, 2]);
    let mut buffer = [a, b.clone()].concat();
    assert_eq!(WebSocketFrame::parse(&mut buffer).unwrap(), b"first".to_vec());
    assert_eq!(buffer, b);
    assert_eq!(WebSocketFrame::parse(&mut buffer).unwrap(), b"second".to_vec());
}

#[test]
fn unsatisfiable_length_is_invalid_and_resynchronises() {
    // a 64-bit length far beyond what the receive buffer may hold
    let mut buffer = Vec::new();
    let garbage = vec![0x81, 0xFF, 0, 0, 0, 1, 0, 0, 0, 0, 1, 2, 3, 4];
    assert!(matches!(receive(&mut buffer, &garbage), WireUnit::Invalid));
    assert!(buffer.is_empty());
    let p = b"{\"type\":\"ping\"}".to_vec();
    match receive(&mut buffer, &masked_frame(&p, [4, 3, 2, 1])) {
        WireUnit::Payload(got) => assert_eq!(got, p),
        other => panic!("{:?}", other),
    }
}

#[test]
fn a_frame_just_over_the_buffer_is_invalid() {
    let mut header = vec![0x81, 0x80 | 126];
    header.extend_from_slice(&((MAX_BUFFER_LEN - 7) as u16).to_be_bytes());
    header.extend_from_slice(&[1, 2, 3, 4]);
    let mut buffer = Vec::new();
    assert!(matches!(receive(&mut buffer, &header), WireUnit::Invalid));
    assert!(buffer.is_empty());
    let mut fits = vec![0x81, 0x80 | 126];
    fits.extend_from_slice(&((MAX_BUFFER_LEN - 8) as u16).to_be_bytes());
    fits.extend_from_slice(&[1, 2, 3, 4]);
    assert!(matches!(receive(&mut buffer, &fits), WireUnit::Incomplete));
    assert_eq!(buffer.len(), 8);
}

#[test]
fn frame_error_variants() {
    let mut fragmented = vec![0x01, 0x80, 0, 0, 0, 0];
    assert_eq!(WebSocketFrame::parse(&mut fragmented), Err(FrameError::Fragmented));
    let mut too_long = vec![0x81, 127, 0x80, 0, 0, 0, 0, 0, 0, 0];
    assert_eq!(WebSocketFrame::parse(&mut too_long), Err(FrameError::TooLong));
    assert_eq!(too_long.len(), 10);
    assert!(matches!(parse_client_message(&mut too_long), WireUnit::Invalid));
    assert!(too_long.is_empty());
    let mut one = vec![0x81];
    assert!(matches!(parse_client_message(&mut one), WireUnit::Incomplete));
    assert_eq!(one, vec![0x81]);
    let mut clear_fin = vec![0x01];
    assert_eq!(WebSocketFrame::parse(&mut clear_fin), Err(FrameError::Fragmented));
    let mut cut_long = vec![0x81, 0x7F, 0x80];
    assert_eq!(WebSocketFrame::parse(&mut cut_long), Err(FrameError::TooLong));
    assert!(matches!(parse_client_message(&mut cut_long), WireUnit::Invalid));
    assert!(cut_long.is_empty());
}

#[test]
fn a_large_frame_still_arriving_is_kept_by_the_decoder() {
    let p = payload_of(9000);
    let f = masked_frame(&p, [5, 6, 7, 8]);
    let mut prefix = f[..20].to_vec();
    assert!(matches!(parse_client_message(&mut prefix), WireUnit::Incomplete));
    assert_eq!(prefix, f[..20].to_vec());
}

#[test]
fn the_request_line_must_hold_method_path_and_version() {
    let mut buffer = b"GET x\r\ny z\r\n".to_vec();
    assert!(matches!(parse_client_message(&mut buffer), WireUnit::Invalid));
    assert!(buffer.is_empty());
}

#[test]
fn an_overfull_buffer_is_dropped() {
    let mut buffer = vec![0x81, 0x80 | 126, 0x10, 0x00];
    let chunk = vec![0u8; MAX_BUFFER_LEN];
    assert!(matches!(receive(&mut buffer, &chunk), WireUnit::Invalid));
    assert!(buffer.is_empty());
}

#[test]
fn http_request_is_parsed() {
    let mut buffer = b"GET /app.js HTTP/1.1\r\nHost: example\r\nX-Twice: a\r\nX-Twice: b\r\nbroken line\r\n\r\n".to_vec();
    match parse_client_message(&mut buffer) {
        WireUnit::Request(req) => {
            assert_eq!(req.method, HttpMethod::GET);
            assert_eq!(req.path, "/app.js");
            assert_eq!(req.version, "HTTP/1.1");
            assert_eq!(
                req.headers,
                vec![
                    ("Host".to_string(), "example".to_string()),
                    ("X-Twice".to_string(), "b".to_string())
                ]
            );
            assert_eq!(req.header("X-Twice"), Some("b".to_string()));
            assert_eq!(req.header("x-twice"), None);
            assert!(!req.is_websocket_handshake());
        }
        other => panic!("{:?}", other),
    }
    assert!(buffer.is_empty());
}

#[test]
fn text_that_is_not_a_request_is_invalid() {
    for text in ["hello there", "GET /nothing-else", "BREW / HTTP/1.1\r\n\r\n", ""] {
        let mut buffer = text.as_bytes().to_vec();
        assert!(matches!(parse_client_message(&mut buffer), WireUnit::Invalid), "{}", text);
        assert!(buffer.is_empty());
    }
}

#[test]
fn methods_are_recognised_by_prefix() {
    assert_eq!(HttpMethod::from_text("POST /x HTTP/1.1"), Some(HttpMethod::POST));
    assert_eq!(HttpMethod::from_text("PUT"), Some(HttpMethod::PUT));
    assert_eq!(HttpMethod::from_text("DELETE /"), Some(HttpMethod::DELETE));
    assert_eq!(HttpMethod::from_text("OPTIONS *"), Some(HttpMethod::OPTIONS));
    assert_eq!(HttpMethod::from_text("get /"), None);
    assert_eq!("GET / HTTP/1.1".parse::<HttpMethod>(), Ok(HttpMethod::GET));
    assert!("PATCH /".parse::<HttpMethod>().is_err());
}

#[test]
fn handshake_header_is_case_insensitive() {
    let mut buffer = b"GET /ws HTTP/1.1\r\nupgrade: WebSocket\r\n\r\n".to_vec();
    match parse_client_message(&mut buffer) {
        WireUnit::Request(req) => assert!(req.is_websocket_handshake()),
        other => panic!("{:?}", other),
    }
}

#[test]
fn accept_key_matches_the_rfc_example() {
    assert_eq!(websocket_accept_key("dGhlIHNhbXBsZSBub25jZQ=="), "s3pPLMBiTxaQ9kYGzzhZRbK+xOo=");
}

#[test]
fn handshake_response_bytes() {
    let mut buffer = b"GET /chat HTTP/1.1\r\nUpgrade: websocket\r\nSec-WebSocket-Key: dGhlIHNhbXBsZSBub25jZQ==\r\n\r\n".to_vec();
    let req = match parse_client_message(&mut buffer) {
        WireUnit::Request(req) => req,
        other => panic!("{:?}", other),
    };
    let res = HttpResponse::websocket_handshake(&req).unwrap();
    let text = String::from_utf8(res.as_bytes()).unwrap();
    assert_eq!(
        text,
        "HTTP/1.1 101 Switching Protocols\r\nSec-Websocket-Accept: s3pPLMBiTxaQ9kYGzzhZRbK+xOo=\r\nConnection: upgrade\r\nUpgrade: websocket\r\n\r\n"
    );
}

#[test]
fn not_found_response_bytes() {
    let text = String::from_utf8(HttpResponse::not_found().as_bytes()).unwrap();
    assert_eq!(
        text,
        "HTTP/1.1 404 Not Found\r\nServer: rust-001\r\nCross-Origin-Opener-Policy: same-origin\r\nCross-Origin-Embedder-Policy: require-corp\r\ncontent-length: 0\r\n\r\n"
    );
}

#[test]
fn file_responses_carry_type_and_length() {
    let res = HttpResponse::file_content("public/app.JS", Some(b"let x;".to_vec()));
    assert_eq!(res.status_code, 200);
    assert_eq!(
        res.headers[3..].to_vec(),
        vec![
            ("content-length".to_string(), "6".to_string()),
            ("content-type".to_string(), "text/javascript".to_string())
        ]
    );
    assert!(res.as_bytes().ends_with(b"\r\n\r\nlet x;"));
    let html = HttpResponse::file_content("public/index.html", Some(vec![]));
    assert_eq!(html.headers[4].1, "text/html");
    let css = HttpResponse::file_content("a.b.css", Some(vec![]));
    assert_eq!(css.headers[4].1, "text/css");
    let other = HttpResponse::file_content("public/logo", Some(vec![1; 1234]));
    assert_eq!(other.headers[3].1, "1234");
    assert_eq!(other.headers[4].1, "application/octet-stream");
    let missing = HttpResponse::file_content("public/none.html", None);
    assert_eq!(missing.status_code, 404);
}

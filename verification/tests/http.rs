use wireparse::http::{
    get_content_length, get_header_value, parse_http_request, request_parser, Header, Response,
};
use wireparse::stream::ByteStream;

fn from_text(text: &str) -> ByteStream {
    ByteStream::wrap(text.to_string().into_bytes())
}

#[test]
fn curl_request() {
    let text = "GET / HTTP/1.1\r\nHost: localhost:9000\r\nUser-Agent: curl/7.64.1\r\nAccept: */*\r\n\r\n";
    let mut bs = from_text(text);
    let req_opt = parse_http_request(&mut bs);
    let req = req_opt.unwrap();

    assert_eq!(req.method, "GET");
    assert_eq!(req.path, "/");
    assert_eq!(req.protocol, "HTTP/1.1");
    assert_eq!(req.headers[0].name, "Host");
    assert_eq!(req.headers[0].value, "localhost:9000");
    assert_eq!(req.headers[1].name, "User-Agent");
    assert_eq!(req.headers[1].value, "curl/7.64.1");
    assert_eq!(req.headers[2].name, "Accept");
    assert_eq!(req.headers[2].value, "*/*");
    assert!(req.content.is_empty());
}

#[test]
fn http_request() {
    let text = "GET /docs/index.html HTTP/1.1\r\nHost: www.nowhere123.com\r\nAccept: image/gif, image/jpeg, */*\r\nAccept-Language: en-us\r\nAccept-Encoding: gzip, deflate\r\nContent-Length: 8\r\nUser-Agent: Mozilla/4.0 (compatible; MSIE 6.0; Windows NT 5.1)\r\n\r\n0123456\n";
    let mut bs = from_text(text);
    let req_opt = parse_http_request(&mut bs);
    let req = req_opt.unwrap();

    assert_eq!(req.method, "GET");
    assert_eq!(req.path, "/docs/index.html");
    assert_eq!(req.protocol, "HTTP/1.1");
    assert_eq!(req.content, b"0123456\n");
    assert_eq!(req.headers[0].name, "Host");
    assert_eq!(req.headers[0].value, "www.nowhere123.com");
    assert_eq!(req.headers[1].name, "Accept");
    assert_eq!(req.headers[1].value, "image/gif, image/jpeg, */*");
    assert_eq!(req.headers[2].name, "Accept-Language");
    assert_eq!(req.headers[2].value, "en-us");
    assert_eq!(req.headers[3].name, "Accept-Encoding");
    assert_eq!(req.headers[3].value, "gzip, deflate");
    assert_eq!(req.headers[4].name, "Content-Length");
    assert_eq!(req.headers[4].value, "8");
    assert_eq!(req.headers[5].name, "User-Agent");
    assert_eq!(
        req.headers[5].value,
        "Mozilla/4.0 (compatible; MSIE 6.0; Windows NT 5.1)"
    );
}

#[test]
fn http_upgrade() {
    let text = "GET /chat HTTP/1.1\r\nHost: example.com:8000\r\nUpgrade: websocket\r\nConnection: Upgrade\r\nSec-WebSocket-Key: dGhlIHNhbXBsZSBub25jZQ==\r\nSec-WebSocket-Version: 13\r\n\r\n";
    let mut bs = from_text(text);
    let req_opt = bs.apply(request_parser());
    let req = req_opt.unwrap();

    assert_eq!(req.method, "GET");
    assert_eq!(req.path, "/chat");
    assert_eq!(req.protocol, "HTTP/1.1");
    assert!(req.content.is_empty());
    assert_eq!(req.headers[0].name, "Host");
    assert_eq!(req.headers[0].value, "example.com:8000");
    assert_eq!(req.headers[1].name, "Upgrade");
    assert_eq!(req.headers[1].value, "websocket");
    assert_eq!(req.headers[2].name, "Connection");
    assert_eq!(req.headers[2].value, "Upgrade");
    assert_eq!(req.headers[3].name, "Sec-WebSocket-Key");
    assert_eq!(req.headers[3].value, "dGhlIHNhbXBsZSBub25jZQ==");
    assert_eq!(req.headers[4].name, "Sec-WebSocket-Version");
    assert_eq!(req.headers[4].value, "13");
}

#[test]
fn http_response() {
    let res = Response {
        protocol: "HTTP/1.1".to_string(),
        code: 200,
        message: "OK".to_string(),
        headers: vec![Header {
            name: "Content-Length".to_string(),
            value: "5".to_string(),
        }],
        content: b"hello".to_vec(),
    };

    let out: String = res.into_string();
    assert_eq!(
        out,
        "HTTP/1.1 200 OK\r\nContent-Length: 5\r\n\r\nhello".to_string()
    );
}

#[test]
fn minimal_get() {
    let text = "GET / HTTP/1.1\r\nHost: localhost:9000\r\n\r\n";
    let mut bs = from_text(text);
    let req = parse_http_request(&mut bs).unwrap();
    assert_eq!(req.method, "GET");
    assert_eq!(req.path, "/");
    assert_eq!(req.protocol, "HTTP/1.1");
    assert_eq!(req.headers.len(), 1);
    assert_eq!(req.headers[0].name, "Host");
    assert_eq!(req.headers[0].value, "localhost:9000");
    assert!(req.content.is_empty());
}

#[test]
fn post_with_body() {
    let text = "POST / HTTP/1.1\r\nContent-Length: 5\r\n\r\nhello";
    let mut bs = from_text(text);
    let req = parse_http_request(&mut bs).unwrap();
    assert_eq!(req.method, "POST");
    assert_eq!(req.content, b"hello");
}

#[test]
fn missing_content_length_means_empty_body() {
    let text = "POST / HTTP/1.1\r\nHost: x\r\n\r\ntrailing bytes that are not a body";
    let mut bs = from_text(text);
    let req = parse_http_request(&mut bs).unwrap();
    assert!(req.content.is_empty());
    // the trailing bytes stay in the buffer, unread
    assert!(bs.pos() < bs.len());
}

#[test]
fn unparsable_content_length_means_empty_body() {
    let text = "POST / HTTP/1.1\r\nContent-Length: five\r\n\r\nhello";
    let mut bs = from_text(text);
    let req = parse_http_request(&mut bs).unwrap();
    assert!(req.content.is_empty());
    assert_eq!(get_content_length(&req), Some(0));
}

#[test]
fn malformed_start_line() {
    // no space separators anywhere: the method scan already fails
    let text = "GETHTTP11NOSEPARATORS";
    let mut bs = from_text(text);
    let before_pos = bs.pos();
    let req = parse_http_request(&mut bs);
    assert!(req.is_none());
    // before(' ') finds no delimiter and consumes nothing
    assert_eq!(bs.pos(), before_pos);
}

#[test]
fn truncated_body_fails() {
    let text = "POST / HTTP/1.1\r\nContent-Length: 10\r\n\r\nhello";
    let mut bs = from_text(text);
    assert!(parse_http_request(&mut bs).is_none());
}

#[test]
fn header_lookup() {
    let text = "GET / HTTP/1.1\r\nHost: a\r\nHost: b\r\n\r\n";
    let mut bs = from_text(text);
    let req = parse_http_request(&mut bs).unwrap();
    // the first of two same-named headers wins
    assert_eq!(get_header_value(&req, "Host".to_string()), Some("a".to_string()));
    assert_eq!(get_header_value(&req, "Missing".to_string()), None);
    assert_eq!(get_content_length(&req), None);
}

#[test]
fn plus_signed_content_length() {
    let text = "POST / HTTP/1.1\r\nContent-Length: +5\r\n\r\nhello";
    let mut bs = from_text(text);
    let req = parse_http_request(&mut bs).unwrap();
    assert_eq!(req.content, b"hello");
    assert_eq!(get_content_length(&req), Some(5));
}

#[test]
fn overflowing_content_length_means_zero() {
    let text = "POST / HTTP/1.1\r\nContent-Length: 99999999999999999999999999\r\n\r\nhello";
    let mut bs = from_text(text);
    let req = parse_http_request(&mut bs).unwrap();
    assert!(req.content.is_empty());
    assert_eq!(get_content_length(&req), Some(0));
}

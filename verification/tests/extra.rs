use minihttp::decimal::parse_u16;
use minihttp::traits::StringChannel;
use minihttp::{Client, HttpError, HttpHeader, HttpMethod};

#[test]
fn parse_u16_accepts_plain_and_signed_tokens() {
    assert_eq!(parse_u16("0"), Some(0));
    assert_eq!(parse_u16("80"), Some(80));
    assert_eq!(parse_u16("+8080"), Some(8080));
    assert_eq!(parse_u16("65535"), Some(65535));
}

#[test]
fn parse_u16_rejects_bad_tokens() {
    assert_eq!(parse_u16(""), None);
    assert_eq!(parse_u16("+"), None);
    assert_eq!(parse_u16("-1"), None);
    assert_eq!(parse_u16("65536"), None);
    assert_eq!(parse_u16("123456789"), None);
    assert_eq!(parse_u16("8o"), None);
    assert_eq!(parse_u16("4 4"), None);
}

#[test]
fn method_tokens() {
    assert_eq!(HttpMethod::Get.as_str(), "GET");
    assert_eq!(HttpMethod::Head.as_str(), "HEAD");
    assert_eq!(HttpMethod::Post.as_str(), "POST");
    assert_eq!(HttpMethod::Put.as_str(), "PUT");
    assert_eq!(HttpMethod::Delete.as_str(), "DELETE");
}

#[test]
fn header_vocabulary_round_trip() {
    assert_eq!(HttpHeader::from(String::from("Content-Type:")), HttpHeader::ContentType);
    assert_eq!(HttpHeader::from(String::from("Last-Modified:")), HttpHeader::LastModified);
    assert_eq!(
        HttpHeader::from(String::from("X-Custom:")),
        HttpHeader::Other(String::from("X-Custom:"))
    );
    assert_eq!(HttpHeader::ContentLength.as_string(), "Content-Length: ");
    assert_eq!(HttpHeader::Host.as_string(), "Host: ");
    assert_eq!(HttpHeader::LastModified.as_string(), "Last-Modified: ");
    assert_eq!(HttpHeader::Other(String::from("X-Custom:")).as_string(), "X-Custom: ");
}

#[test]
fn open_rejects_unsupported_scheme() {
    let channel = StringChannel::new("");
    let mut client = Client::new(channel);
    client.get("ftp://localhost/file");
    assert_eq!(client.open().err().unwrap(), HttpError::UnsupportedScheme);
}

#[test]
fn open_reports_bad_url() {
    let channel = StringChannel::new("");
    let mut client = Client::new(channel);
    client.get("not a url");
    match client.open() {
        Err(HttpError::BadUrl(_)) => (),
        other => panic!("unexpected result: {:?}", other),
    }
}

#[test]
fn response_rejects_bad_status_code() {
    let channel = StringChannel::new("HTTP/1.1 2x0 OK\r\n\r\n");
    let mut client = Client::new(channel);
    client.get("http://localhost/");
    client.open().unwrap();
    client.send(&[]).unwrap();
    let response = client.response(|_| true);
    assert_eq!(response.err().unwrap(), HttpError::InvalidStatusCode);
}

#[test]
fn extra_headers_and_body_round_trip() {
    let channel = StringChannel::new("HTTP/1.1 204 No Content\r\n\r\n");
    let mut client = Client::new(channel);
    client.put("http://localhost:8000/item");
    client.open().unwrap();
    client.header(HttpHeader::ContentType, "text/plain").unwrap();
    let mut list = Vec::new();
    list.push((HttpHeader::Connection, String::from("close")));
    client.headers(&list).unwrap();
    client.body(b"hal").unwrap();
    client.send(b"lo").unwrap();
    let response = client.response(|_| true).unwrap();
    assert_eq!(response.status_code, 204);
    assert_eq!(response.status, "No Content");
    assert_eq!(response.headers.len(), 0);
}

#[test]
fn filter_keeps_wire_order() {
    let channel = StringChannel::new(
        "HTTP/1.1 200 OK\r\nServer: a\r\nDate: b\r\nETag: c\r\n\r\n",
    );
    let mut client = Client::new(channel);
    client.get("http://localhost/");
    client.open().unwrap();
    let response = client
        .response(|h| h == HttpHeader::Server || h == HttpHeader::Etag)
        .unwrap();
    assert_eq!(response.headers.len(), 2);
    assert_eq!(response.headers[0], (HttpHeader::Server, String::from("a")));
    assert_eq!(response.headers[1], (HttpHeader::Etag, String::from("c")));
}

#[test]
fn response_ends_before_status_line() {
    let channel = StringChannel::new("HTTP/1.1 200 OK");
    let mut client = Client::new(channel);
    client.get("http://localhost/");
    client.open().unwrap();
    let response = client.response(|_| true);
    assert_eq!(
        response.err().unwrap(),
        HttpError::ChannelError(minihttp::traits::ChannelError::EndOfStream)
    );
}

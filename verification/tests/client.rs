use minihttp::traits::{Channel, StringChannel};
use minihttp::{Client, HttpError, HttpHeader};

const RESPONSE_200: &str = "HTTP/1.1 200 OK\r\nContent-Type: text/html; \
                            charset=UTF-8\r\nContent-Length: \
                            138\r\n\r\n<html><head><title>An Example \
                            Page</title></head><body>Hello World, this is a very \
                            simple HTML document.</body></html>";

#[test]
fn test_get() {
    let http_channel = StringChannel::new(RESPONSE_200);
    let mut client = Client::new(http_channel);
    client.get("http://localhost:8000/test.html");
    client.open().unwrap();
    client.send(&[]).unwrap();
    let response = client.response(|_| true).unwrap();
    assert_eq!(response.status_code, 200);
    assert_eq!(response.status, "OK");
    assert_eq!(response.headers.len(), 2);
    assert_eq!(
        response.headers[0],
        (HttpHeader::ContentType, String::from("text/html; charset=UTF-8"))
    );
    assert_eq!(response.headers[1], (HttpHeader::ContentLength, String::from("138")));
}

#[test]
fn test_get_no_send() {
    let http_channel = StringChannel::new(RESPONSE_200);
    let mut client = Client::new(http_channel);
    client.get("http://localhost:8000/test.html");
    client.open().unwrap();
    let response = client.response(|_| true).unwrap();
    assert_eq!(response.status_code, 200);
    assert_eq!(response.status, "OK");
    assert_eq!(response.headers.len(), 2);
    assert_eq!(
        response.headers[0],
        (HttpHeader::ContentType, String::from("text/html; charset=UTF-8"))
    );
    assert_eq!(response.headers[1], (HttpHeader::ContentLength, String::from("138")));
}

#[test]
fn test_get_1_0() {
    let http_channel = StringChannel::new(
        "HTTP/1.0 200 OK\r\nContent-Type: text/html; \
         charset=UTF-8\r\nContent-Length: \
         138\r\n\r\n<html><head><title>An Example \
         Page</title></head><body>Hello World, this is a very \
         simple HTML document.</body></html>",
    );
    let mut client = Client::new(http_channel);
    client.get("http://localhost:8000/test.html");
    client.open().unwrap();
    client.send(&[]).unwrap();
    let response = client.response(|_| true).unwrap();
    assert_eq!(response.status_code, 200);
    assert_eq!(response.status, "OK");
    assert_eq!(response.headers.len(), 2);
    assert_eq!(
        response.headers[0],
        (HttpHeader::ContentType, String::from("text/html; charset=UTF-8"))
    );
    assert_eq!(response.headers[1], (HttpHeader::ContentLength, String::from("138")));
}

#[test]
fn test_get_1_2() {
    let http_channel = StringChannel::new(
        "HTTP/1.2 200 OK\r\nContent-Type: text/html; \
         charset=UTF-8\r\nContent-Length: \
         138\r\n\r\n<html><head><title>An Example \
         Page</title></head><body>Hello World, this is a very \
         simple HTML document.</body></html>",
    );
    let mut client = Client::new(http_channel);
    client.get("http://localhost:8000/test.html");
    client.open().unwrap();
    client.send(&[]).unwrap();
    let response = client.response(|_| true);
    assert_eq!(response.err().unwrap(), HttpError::InvalidVersion);
}

#[test]
fn test_post() {
    let http_channel = StringChannel::new(RESPONSE_200);
    let mut client = Client::new(http_channel);
    client.post("http://localhost:8000/test.html");
    client.open().unwrap();
    client.send(&[]).unwrap();
    let response = client.response(|header_name| header_name == HttpHeader::ContentType).unwrap();
    assert_eq!(response.status_code, 200);
    assert_eq!(response.status, "OK");
    assert_eq!(response.headers.len(), 1);
    assert_eq!(
        response.headers[0],
        (HttpHeader::ContentType, String::from("text/html; charset=UTF-8"))
    );
}

#[test]
fn test_body() {
    let http_channel = StringChannel::new(RESPONSE_200);
    let mut client = Client::new(http_channel);
    client.get("http://localhost:8000/test.html");
    client.open().unwrap();
    client.send(&[]).unwrap();
    let response = client.response(|_| true).unwrap();
    assert_eq!(response.status_code, 200);
    let mut buffer = vec![0u8; 256];
    let s = client.channel.read_string_to_end(&mut buffer).unwrap();
    assert_eq!(
        s,
        "<html><head><title>An Example Page</title></head><body>Hello World, this is a \
         very simple HTML document.</body></html>"
    );
}

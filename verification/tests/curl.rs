use umd::commands::Command;
use umd::curl::Curl;
use umd::protocol::{Protocol, ProtocolError};

#[test]
fn parse_set_with_ttl() {
    let raw = r#"POST /key HTTP/1.1
        Host: localhost:9999
        User-Agent: curl/7.74.0
        Accept: */*
        Content-Length: 5
        Content-Type: application/x-www-form-urlencoded

        value EX 10"#;

    let output = Curl::decode(raw.as_bytes()).unwrap();
    assert_eq!(
        output,
        Command::SetValue { key: "key".to_string(), value: "value".to_string(), ttl: Some(10) }
    );
}

#[test]
fn parse_get() {
    let raw = r#"GET /key HTTP/1.1
Host: 127.0.0.1:9999
User-Agent: curl/7.74.0
Accept: */*
"#;

    let output = Curl::decode(raw.as_bytes()).unwrap();
    assert_eq!(output, Command::Get { key: "key".to_string() });
}

#[test]
fn parse_set() {
    let raw = r#"POST /key HTTP/1.1
        Host: localhost:9999
        User-Agent: curl/7.74.0
        Accept: */*
        Content-Length: 5
        Content-Type: application/x-www-form-urlencoded

        value"#;

    let output = Curl::decode(raw.as_bytes()).unwrap();
    assert_eq!(
        output,
        Command::SetValue { key: "key".to_string(), value: "value".to_string(), ttl: None }
    );
}

#[test]
fn parse_del() {
    let raw = r#"POST /key HTTP/1.1
        Host: localhost:9999
        User-Agent: curl/7.74.0
        Accept: */*
        Content-Length: 5
        Content-Type: application/x-www-form-urlencoded
"#;

    let output = Curl::decode(raw.as_bytes()).unwrap();
    assert_eq!(output, Command::Del { key: "key".to_string() });
}

#[test]
fn parse_delete_method() {
    let raw = "DELETE /key HTTP/1.1\nHost: localhost:9999\n";
    let output = Curl::decode(raw.as_bytes()).unwrap();
    assert_eq!(output, Command::Del { key: "key".to_string() });
}

#[test]
fn body_may_hold_a_colon() {
    let raw = "POST /key HTTP/1.1\nHost: localhost:9999\n\na:b\n";
    let output = Curl::decode(raw.as_bytes()).unwrap();
    assert_eq!(
        output,
        Command::SetValue { key: "key".to_string(), value: "a:b".to_string(), ttl: None }
    );
}

#[test]
fn body_may_span_lines() {
    let raw = "POST /key HTTP/1.1\nHost: localhost:9999\n\nvalue\nEX 10\n";
    let output = Curl::decode(raw.as_bytes()).unwrap();
    assert_eq!(
        output,
        Command::SetValue { key: "key".to_string(), value: "value".to_string(), ttl: Some(10) }
    );
}

#[test]
fn blank_line_without_body_means_no_body() {
    let raw = "POST /key HTTP/1.1\nHost: localhost:9999\n\n   \n";
    let output = Curl::decode(raw.as_bytes()).unwrap();
    assert_eq!(output, Command::Del { key: "key".to_string() });
}

#[test]
fn resp_frame_is_not_http() {
    let raw = "*2\r\n$7\r\nCOMMAND\r\n$4\r\nDOCS\r\n";
    let output = Curl::decode(raw.as_bytes());
    assert_eq!(output, Err(ProtocolError::CurlProtocolDecodingError));
}

#[test]
fn encode_http_body() {
    let r = umd::commands::CommandResponse::String { value: "bar".to_string() };
    assert_eq!(Curl::encode(r), b"HTTP/1.1 200 OK\r\n\r\nbar".to_vec());
}

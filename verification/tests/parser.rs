use umd::parser::{parse_request, route_err_kind, RequestKind};

#[test]
fn parse_redis_cli() {
    // NOTE: This is the first command redis-cli sends.
    let raw = "*2\r\n$7\r\nCOMMAND\r\n$4\r\nDOCS\r\n";
    let output = parse_request(raw.as_bytes()).unwrap();
    assert_eq!(output.kind, RequestKind::RedisCLI);
}

#[test]
fn parse_http() {
    let raw = r#"GET /key HTTP/1.1
Host: 127.0.0.1:9999
User-Agent: curl/7.74.0
Accept: */*
"#;

    let output = parse_request(raw.as_bytes()).unwrap();
    assert_eq!(output.kind, RequestKind::Http);
}

#[test]
fn parse_invalid_request() {
    let raw = "invalid";
    let output = parse_request(raw.as_bytes());
    assert!(output.is_err());
    assert_eq!(output.err().unwrap(), "resp protocol decoding error");

    let raw = "*3\r\n$3\r\nNOTACOMMAND\r\n$1\r\nx\r\n$2\r\n11\r\n";
    let output = parse_request(raw.as_bytes());
    assert!(output.is_err());
    assert_eq!(output.err().unwrap(), "command not recognized notacommand");
}

#[test]
fn error_reply_kind_follows_the_protocol() {
    // An unknown HTTP method is answered in the HTTP form.
    let raw = "BREW /key HTTP/1.1\nHost: localhost:9999\n";
    assert_eq!(route_err_kind(raw.as_bytes()), RequestKind::Http);
    // Anything that is not HTTP at all is answered in RESP.
    assert_eq!(route_err_kind(b"invalid"), RequestKind::RedisCLI);
}

#[test]
fn parse_inline_ping() {
    let output = parse_request(b"PING\r\n").unwrap();
    assert_eq!(output.kind, RequestKind::RedisCLI);
    assert_eq!(output.cmd, umd::commands::Command::Ping);
}

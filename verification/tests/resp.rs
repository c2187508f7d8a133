use umd::commands::{Command, CommandResponse};
use umd::protocol::{Protocol, ProtocolError};
use umd::resp::{Resp, RespType};

#[test]
fn config_command() {
    let s = "*3\r\n$6\r\nCONFIG\r\n$3\r\nGET\r\n$4\r\nsave\r\n*3\r\n$6\r\nCONFIG\r\n$3\r\nGET\r\n$10\r\nappendonly\r\n";
    let cmd = Resp::decode(s.as_bytes()).unwrap();
    assert_eq!(cmd, Command::Config);
}

#[test]
fn command_command() {
    let s = "PING\r\n";
    let cmd = Resp::decode(s.as_bytes()).unwrap();
    assert_eq!(cmd, Command::Ping);
}

#[test]
fn simple_string() {
    let s = "+OK\r\n".to_string();
    let rt = RespType::try_from(s);

    assert_eq!(rt, Ok(RespType::SimpleString { value: "OK".to_string() }))
}

#[test]
fn error() {
    let s = "-ERR: test\r\n".to_string();
    let rt = RespType::try_from(s);

    assert_eq!(rt, Ok(RespType::Error { value: "ERR: test".to_string() }))
}

#[test]
fn integer() {
    let s = ":574\r\n".to_string();
    let rt = RespType::try_from(s);

    assert_eq!(rt, Ok(RespType::Integer { value: 574 }));

    let s = ":-574\r\n".to_string();
    let rt = RespType::try_from(s);

    assert_eq!(rt, Ok(RespType::Integer { value: -574 }))
}

#[test]
fn bulk_string() {
    {
        // random string
        let s = "$5\r\nhello\r\n".to_string();
        let rt = RespType::try_from(s);

        assert_eq!(rt, Ok(RespType::BulkString { value: "hello".to_string() }))
    }
    {
        // empty string
        let s = "$0\r\n\r\n".to_string();
        let rt = RespType::try_from(s);

        assert_eq!(rt, Ok(RespType::BulkString { value: "".to_string() }))
    }
}

#[test]
fn array() {
    {
        // string array
        let s = "*2\r\n$5\r\nhello\r\n$5\r\nworld\r\n".to_string();
        let rt = RespType::try_from(s);

        assert_eq!(
            rt,
            Ok(RespType::Array {
                value: vec![
                    RespType::BulkString { value: "hello".to_string() },
                    RespType::BulkString { value: "world".to_string() }
                ]
            })
        )
    }
    {
        // int array
        let s = "*3\r\n:1\r\n:2\r\n:3\r\n".to_string();
        let rt = RespType::try_from(s);

        assert_eq!(
            rt,
            Ok(RespType::Array {
                value: vec![
                    RespType::Integer { value: 1 },
                    RespType::Integer { value: 2 },
                    RespType::Integer { value: 3 }
                ]
            })
        )
    }
    {
        // heterogeneous array
        let s = "*3\r\n:1\r\n+OK\r\n$5\r\nhello\r\n".to_string();
        let rt = RespType::try_from(s);

        assert_eq!(
            rt,
            Ok(RespType::Array {
                value: vec![
                    RespType::Integer { value: 1 },
                    RespType::SimpleString { value: "OK".to_string() },
                    RespType::BulkString { value: "hello".to_string() }
                ]
            })
        )
    }
    {
        // array of array
        let s = "*2\r\n*2\r\n:1\r\n+OK\r\n*2\r\n:4\r\n+TEST\r\n".to_string();
        let rt = RespType::try_from(s);

        assert_eq!(
            rt,
            Ok(RespType::Array {
                value: vec![
                    RespType::Array {
                        value: vec![
                            RespType::Integer { value: 1 },
                            RespType::SimpleString { value: "OK".to_string() }
                        ]
                    },
                    RespType::Array {
                        value: vec![
                            RespType::Integer { value: 4 },
                            RespType::SimpleString { value: "TEST".to_string() }
                        ]
                    }
                ]
            })
        )
    }
}

#[test]
fn set_request() {
    let s = "*3\r\n$3\r\nset\r\n$4\r\nciao\r\n$4\r\ncome\r\n";
    let cmd = Resp::decode(s.as_bytes()).unwrap();
    assert_eq!(
        cmd,
        Command::SetValue { key: "ciao".to_string(), value: "come".to_string(), ttl: None }
    );
}

#[test]
fn set_with_expire() {
    let s = "*5\r\n$3\r\nset\r\n$4\r\nciao\r\n$4\r\ncome\r\n$2\r\nEX\r\n$2\r\n10\r\n";
    let cmd = Resp::decode(s.as_bytes()).unwrap();
    assert_eq!(
        cmd,
        Command::SetValue { key: "ciao".to_string(), value: "come".to_string(), ttl: Some(10) }
    );
}

#[test]
fn dirty() {
    let payload = r#"hello"#;
    let cmd = Resp::decode(payload.as_bytes());
    assert!(cmd.is_err());
    assert_eq!(cmd, Err(ProtocolError::RespProtocolDecodingError));

    let payload = "*3\r\n$3\r\nNOTACOMMAND\r\n$1\r\nx\r\n$2\r\n11\r\n";
    let cmd = Resp::decode(payload.as_bytes());
    assert!(cmd.is_err());
    assert_eq!(cmd, Err(ProtocolError::CommandNotRecognized("notacommand".into())));
}

#[test]
fn encode_simple_string() {
    let r = CommandResponse::String { value: "PONG".to_string() };
    assert_eq!(Resp::encode(r), b"+PONG\r\n".to_vec());
}

#[test]
fn encode_error() {
    let r = CommandResponse::Error { value: "value is not an integer".to_string() };
    assert_eq!(Resp::encode(r), b"-value is not an integer\r\n".to_vec());
}

#[test]
fn encode_integer() {
    assert_eq!(Resp::encode(CommandResponse::Integer { value: 574 }), b":574\r\n".to_vec());
    assert_eq!(Resp::encode(CommandResponse::Integer { value: -574 }), b":-574\r\n".to_vec());
    assert_eq!(Resp::encode(CommandResponse::Integer { value: 0 }), b":0\r\n".to_vec());
}

#[test]
fn encode_array() {
    let r = CommandResponse::Array {
        value: vec![
            CommandResponse::Integer { value: 1 },
            CommandResponse::String { value: "OK".to_string() },
        ],
    };
    assert_eq!(Resp::encode(r), b"*2\r\n:1\r\n+OK\r\n".to_vec());
}

#[test]
fn encode_then_decode_frame() {
    // Round-trip: the encoding of a response parses back to the matching frame.
    let r = CommandResponse::Array {
        value: vec![
            CommandResponse::Integer { value: 42 },
            CommandResponse::String { value: "fine".to_string() },
        ],
    };
    let bytes = Resp::encode(r);
    let text = String::from_utf8(bytes).unwrap();
    let rt = RespType::try_from(text).unwrap();
    assert_eq!(
        rt,
        RespType::Array {
            value: vec![
                RespType::Integer { value: 42 },
                RespType::SimpleString { value: "fine".to_string() },
            ]
        }
    );
}

#[test]
fn empty_array_is_rejected() {
    let cmd = Resp::decode(b"*0\r\n");
    assert_eq!(cmd, Err(ProtocolError::RespProtocolDecodingError));
}

#[test]
fn null_bulk_string() {
    let s = "$-1\r\n".to_string();
    let rt = RespType::try_from(s);
    assert_eq!(rt, Ok(RespType::Null));
}

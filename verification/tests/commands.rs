use umd::commands::Command;
use umd::protocol::ProtocolError;

#[test]
fn test_new_command_ok() {
    let cmd = Command::new("GET", "key", None, vec![]);
    assert_eq!(cmd.unwrap(), Command::Get { key: "key".to_string() });
}

#[test]
fn test_new_command_error() {
    let cmd = Command::new("abc", "key", None, vec![]);
    assert_eq!(cmd, Err(ProtocolError::CommandNotRecognized("abc".to_string())));
}

#[test]
fn delete_method_maps_to_del() {
    let cmd = Command::new("DELETE", "key", None, vec![]);
    assert_eq!(cmd.unwrap(), Command::Del { key: "key".to_string() });
}

#[test]
fn new_command_trims_slashes_and_case() {
    let cmd = Command::new("DeL", "/key/", None, vec![]);
    assert_eq!(cmd.unwrap(), Command::Del { key: "key".to_string() });
}

#[test]
fn set_options_besides_ex_are_ignored() {
    let cmd = Command::new(
        "set",
        "k",
        Some("v".to_string()),
        vec!["XX".to_string(), "10".to_string()],
    );
    assert_eq!(
        cmd.unwrap(),
        Command::SetValue { key: "k".to_string(), value: "v".to_string(), ttl: None }
    );
}

#[test]
fn set_trims_its_value() {
    let cmd = Command::new("set", "k", Some("  spaced  ".to_string()), vec![]);
    assert_eq!(
        cmd.unwrap(),
        Command::SetValue { key: "k".to_string(), value: "spaced".to_string(), ttl: None }
    );
}

use text_marker::extension::{language_server_command, BINARY_NOT_FOUND};

#[test]
fn found_binary_is_started_with_serve() {
    let command = language_server_command(Some("/usr/bin/text-marker".to_string())).ok().unwrap();
    assert_eq!(command.command, "/usr/bin/text-marker");
    assert_eq!(command.args, vec!["serve".to_string()]);
    assert!(command.env.is_empty());
}

#[test]
fn missing_binary_is_an_error() {
    let message = language_server_command(None).err().unwrap();
    assert_eq!(message, BINARY_NOT_FOUND);
    assert!(message.contains("PATH"));
}

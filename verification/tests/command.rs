use zed_haskell::command::{
    command_from_lookup, command_from_settings, server_binary_name, BinarySettings,
};

#[test]
fn configured_path_with_arguments() {
    let settings = BinarySettings {
        path: Some("/opt/hls/bin/hls".to_string()),
        arguments: Some(vec!["--lsp".to_string(), "--debug".to_string()]),
    };
    let command = command_from_settings(Some(settings)).unwrap();
    assert_eq!(command.command, "/opt/hls/bin/hls");
    assert_eq!(command.args, vec!["--lsp", "--debug"]);
}

#[test]
fn configured_path_without_arguments() {
    let settings = BinarySettings {
        path: Some("hls".to_string()),
        arguments: None,
    };
    let command = command_from_settings(Some(settings)).unwrap();
    assert_eq!(command.command, "hls");
    assert!(command.args.is_empty());
}

#[test]
fn arguments_without_path_configure_nothing() {
    let settings = BinarySettings {
        path: None,
        arguments: Some(vec!["--lsp".to_string()]),
    };
    assert!(command_from_settings(Some(settings)).is_none());
}

#[test]
fn no_settings_configure_nothing() {
    assert!(command_from_settings(None).is_none());
    let settings = BinarySettings {
        path: None,
        arguments: None,
    };
    assert!(command_from_settings(Some(settings)).is_none());
}

#[test]
fn wrapper_is_looked_up_by_its_name() {
    assert_eq!(server_binary_name(), "haskell-language-server-wrapper");
}

#[test]
fn found_wrapper_is_started_with_lsp() {
    let found = Some("/home/u/.ghcup/bin/haskell-language-server-wrapper".to_string());
    let command = command_from_lookup(found).ok().unwrap();
    assert_eq!(
        command.command,
        "/home/u/.ghcup/bin/haskell-language-server-wrapper"
    );
    assert_eq!(command.args, vec!["lsp"]);
}

#[test]
fn missing_wrapper_is_an_error() {
    let message = command_from_lookup(None).err().unwrap();
    assert_eq!(message, "hls must be installed via ghcup");
}

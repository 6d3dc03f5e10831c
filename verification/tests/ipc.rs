use local_runner::config::CommandArgs;
use local_runner::ipc::{
    get_ipc_file, ipc_command, path_lacks_file_name, ipc_file_name, ipc_request, message_from_contents,
    parse_ipc_message, write_message, IpcCommand,
};

#[test]
fn ipc_file_next_to_config() {
    assert_eq!(ipc_file_name("services.toml"), ".services.toml.ipc");
    assert_eq!(get_ipc_file("./services.toml"), Some("./.services.toml.ipc".to_string()));
    assert_eq!(get_ipc_file("dir/x.toml"), Some("dir/.x.toml.ipc".to_string()));
    assert_eq!(get_ipc_file("services.toml"), Some(".services.toml.ipc".to_string()));
    assert!(get_ipc_file("/etc/local/runner.toml").unwrap().ends_with(".runner.toml.ipc"));
}

#[test]
fn write_message_plan() {
    assert_eq!(
        write_message("stop web", "./services.toml"),
        Some(("./.services.toml.ipc".to_string(), "stop web".to_string()))
    );
}

#[test]
fn contents_are_trimmed() {
    assert_eq!(message_from_contents("  start web \n"), Some("start web".to_string()));
    assert_eq!(message_from_contents(" \n\t "), None);
    assert_eq!(message_from_contents(""), None);
}

#[test]
fn requests_for_each_command() {
    assert_eq!(ipc_request(&CommandArgs::Restart { service: "a".to_string() }), "restart a");
    assert_eq!(ipc_request(&CommandArgs::Start { tag: false, service_or_tag: "b".to_string() }), "start b");
    assert_eq!(ipc_request(&CommandArgs::Stop { service: "c".to_string() }), "stop c");
    assert_eq!(ipc_request(&CommandArgs::Status), "status _");
    assert_eq!(ipc_request(&CommandArgs::Shutdown), "shutdown _");
}

#[test]
fn parse_requests() {
    assert_eq!(parse_ipc_message("start web"), Some(("start".to_string(), "web".to_string())));
    assert_eq!(parse_ipc_message("stop a b"), Some(("stop".to_string(), "a".to_string())));
    assert_eq!(parse_ipc_message("status"), None);
    assert_eq!(parse_ipc_message("x  y"), Some(("x".to_string(), "".to_string())));
    assert_eq!(ipc_command("restart"), IpcCommand::Restart);
    assert_eq!(ipc_command("start"), IpcCommand::Start);
    assert_eq!(ipc_command("stop"), IpcCommand::Stop);
    assert_eq!(ipc_command("status"), IpcCommand::Status);
    assert_eq!(ipc_command("shutdown"), IpcCommand::Shutdown);
    assert_eq!(ipc_command("reboot"), IpcCommand::Unknown);
}

#[test]
fn request_roundtrip() {
    let text = ipc_request(&CommandArgs::Restart { service: "web".to_string() });
    let read = message_from_contents(&text).unwrap();
    assert_eq!(read, text);
    let (verb, service) = parse_ipc_message(&read).unwrap();
    assert_eq!(ipc_command(&verb), IpcCommand::Restart);
    assert_eq!(service, "web");
}

#[test]
fn trimming_takes_unicode_white_space_only() {
    let white = [
        '\u{9}', '\u{a}', '\u{b}', '\u{c}', '\u{d}', '\u{20}', '\u{85}', '\u{a0}', '\u{1680}',
        '\u{2000}', '\u{2001}', '\u{2002}', '\u{2003}', '\u{2004}', '\u{2005}', '\u{2006}',
        '\u{2007}', '\u{2008}', '\u{2009}', '\u{200a}', '\u{2028}', '\u{2029}', '\u{202f}',
        '\u{205f}', '\u{3000}',
    ];
    for c in white {
        let text = format!("{c}go{c}");
        assert_eq!(message_from_contents(&text), Some("go".to_string()));
    }
    for c in ['\u{180e}', '\u{200b}', '\u{feff}', '\u{1c}', 'x'] {
        let text = format!("{c}go{c}");
        assert_eq!(message_from_contents(&text), Some(text.clone()));
    }
}

#[test]
fn roundtrip_fails_for_an_empty_service() {
    let text = ipc_request(&CommandArgs::Stop { service: "".to_string() });
    let read = message_from_contents(&text).unwrap();
    assert_eq!(read, "stop");
    assert_eq!(parse_ipc_message(&read), None);
}

#[test]
fn request_file_stays_in_the_config_folder() {
    assert_eq!(get_ipc_file("conf/dev/services.toml"), Some("conf/dev/.services.toml.ipc".to_string()));
    assert_eq!(get_ipc_file("../x.toml"), Some("../.x.toml.ipc".to_string()));
    assert_ne!(get_ipc_file("a/b.toml"), Some("a/b.toml".to_string()));
}

#[test]
fn paths_without_a_file_name() {
    assert!(path_lacks_file_name(""));
    assert!(path_lacks_file_name("/"));
    assert!(path_lacks_file_name("//"));
    assert!(path_lacks_file_name(".."));
    assert!(path_lacks_file_name("conf/.."));
    assert!(path_lacks_file_name("conf/../"));
    assert!(!path_lacks_file_name("services.toml"));
    assert!(!path_lacks_file_name("a/..b"));
    assert!(!path_lacks_file_name("conf/"));
}

#[test]
fn request_file_for_other_plain_paths() {
    assert_eq!(get_ipc_file("/services.toml"), Some("/.services.toml.ipc".to_string()));
    assert_eq!(get_ipc_file("conf/services.toml/"), Some("conf/.services.toml.ipc".to_string()));
    assert_eq!(get_ipc_file("services.toml//"), Some(".services.toml.ipc".to_string()));
    assert_eq!(get_ipc_file("conf/a:b.toml"), Some("conf/.a:b.toml.ipc".to_string()));
    assert_eq!(get_ipc_file("ab:c.toml"), Some(".ab:c.toml.ipc".to_string()));
}

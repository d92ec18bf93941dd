use citool::command::CiToolsCommand;

#[test]
fn new_by_argv_name_and_value() {
    let c = CiToolsCommand::new_by_argv("ci_path= /tmp/project ".to_string()).unwrap();
    assert_eq!(c.name, "ci_path");
    assert_eq!(c.value, Some("/tmp/project".to_string()));
}

#[test]
fn new_by_argv_name_only() {
    let c = CiToolsCommand::new_by_argv("  help ".to_string()).unwrap();
    assert_eq!(c.name, "help");
    assert_eq!(c.value, None);
}

#[test]
fn new_by_argv_empty_name_is_none() {
    assert!(CiToolsCommand::new_by_argv("".to_string()).is_none());
    assert!(CiToolsCommand::new_by_argv("   ".to_string()).is_none());
    assert!(CiToolsCommand::new_by_argv("=value".to_string()).is_none());
}

#[test]
fn new_by_argv_keeps_second_piece_only() {
    let c = CiToolsCommand::new_by_argv("langs-set= ru, en =uz".to_string()).unwrap();
    assert_eq!(c.name, "langs-set");
    assert_eq!(c.value, Some("ru, en".to_string()));
}

#[test]
fn new_by_argv_empty_value() {
    let c = CiToolsCommand::new_by_argv("key=".to_string()).unwrap();
    assert_eq!(c.name, "key");
    assert_eq!(c.value, Some(String::new()));
}

#[test]
fn command_written_back_parses_to_itself() {
    let c = CiToolsCommand { name: "langs-set".to_string(), value: Some("ru,en".to_string()) };
    let line = format!("{}={}", c.name, c.value.clone().unwrap());
    let d = CiToolsCommand::new_by_argv(line).unwrap();
    assert_eq!(d.name, c.name);
    assert_eq!(d.value, c.value);
    let e = CiToolsCommand::new_by_argv("ping".to_string()).unwrap();
    let f = CiToolsCommand::new_by_argv(e.name.clone()).unwrap();
    assert_eq!(f.name, "ping");
    assert_eq!(f.value, None);
    let g = e.copy();
    assert_eq!(g.name, e.name);
}

use citool::command::CiToolsCommand;
use citool::settings::CiToolsSettings;
use citool::tools::{CiTools, Handler};

fn args(v: &[&str]) -> Vec<String> {
    v.iter().map(|s| s.to_string()).collect()
}

fn handlers_of(t: &CiTools, name: &str) -> Vec<Handler> {
    t.events.as_ref().unwrap().get(name).unwrap().clone()
}

const ALL_NAMES: &str = "[ping,help,ci_path,langs-show,langs-foledrs,langs-foledrs-to-config,langs-set,langs-show-can-translate-files,langs-show-can-translate-word,langs-yandex-translate-key-show,langs-yandex-translate-key-set,langs-yandex-translate]";

#[test]
fn new_registers_every_command_and_reads_arguments() {
    let t = CiTools::new(args(&["citool", "ping", " =x", "langs-set=ru,en"]), None);
    assert_eq!(t.debug_events(), ALL_NAMES);
    assert_eq!(t.debug_commands(), "[ping,langs-set=ru,en]");
    assert_eq!(
        t.debug_string(),
        format!("events: {}\nruns: [ping,langs-set=ru,en]", ALL_NAMES)
    );
    assert!(t.config.ci_path.is_none() && t.config.langs.is_none() && t.config.yandexapikey.is_none());
}

#[test]
fn new_without_commands_has_none_to_run() {
    let t = CiTools::new(args(&["citool"]), None);
    assert!(t.run_events.is_none());
    assert_eq!(t.debug_commands(), "None");
    let u = CiTools::new(args(&[]), None);
    assert!(u.run_events.is_none());
    let v = CiTools::new(args(&["citool", "", "  "]), None);
    assert!(v.run_events.is_none());
}

#[test]
fn new_keeps_loaded_settings() {
    let loaded = CiToolsSettings {
        ci_path: Some("/p".to_string()),
        langs: Some(vec!["ru".to_string()]),
        yandexapikey: None,
    };
    let t = CiTools::new(args(&["citool"]), Some(loaded));
    assert_eq!(t.config.ci_path, Some("/p".to_string()));
    assert_eq!(t.config.langs, Some(vec!["ru".to_string()]));
}

#[test]
fn help_runs_both_help_handlers_in_order() {
    let t = CiTools::new(args(&["citool"]), None);
    let hs = handlers_of(&t, "help");
    assert!(hs == vec![Handler::Help, Handler::LangsHelp]);
    assert!(handlers_of(&t, "ping") == vec![Handler::Ping]);
}

#[test]
fn register_appends_and_leaves_other_names() {
    let mut t = CiTools { events: None, run_events: None, config: CiToolsSettings::new(None) };
    assert_eq!(t.debug_events(), "None");
    t.register_exec_function("a".to_string(), Handler::Ping);
    t.register_exec_function("b".to_string(), Handler::Help);
    t.register_exec_function("a".to_string(), Handler::CiPath);
    assert!(handlers_of(&t, "a") == vec![Handler::Ping, Handler::CiPath]);
    assert!(handlers_of(&t, "b") == vec![Handler::Help]);
    assert_eq!(t.debug_events(), "[a,b]");
}

#[test]
fn add_command_skips_empty_names() {
    let mut t = CiTools { events: None, run_events: None, config: CiToolsSettings::new(None) };
    t.add_command("".to_string());
    assert!(t.run_events.is_none());
    t.add_command("ci_path=/x".to_string());
    t.add_command("=y".to_string());
    t.add_command("help".to_string());
    assert_eq!(t.debug_commands(), "[ci_path=/x,help]");
}

#[test]
fn add_system_args_skips_program_name() {
    let mut t = CiTools { events: None, run_events: None, config: CiToolsSettings::new(None) };
    t.add_system_args(args(&["ping", "help"]));
    assert_eq!(t.debug_commands(), "[help]");
}

#[test]
fn run_plan_pairs_each_command_with_its_handlers() {
    let t = CiTools::new(args(&["citool", "help", "unknown", "ping", "langs-show"]), None);
    let plan = t.run_plan();
    let got: Vec<(String, Handler)> = plan.iter().map(|(c, h)| (c.name.clone(), *h)).collect();
    let expected = vec![
        ("help".to_string(), Handler::Help),
        ("help".to_string(), Handler::LangsHelp),
        ("ping".to_string(), Handler::Ping),
        ("langs-show".to_string(), Handler::LangsShow),
    ];
    assert!(got == expected);
}

#[test]
fn run_plan_is_empty_without_commands() {
    let t = CiTools::new(args(&["citool"]), None);
    assert!(t.run_plan().is_empty());
}

#[test]
fn run_plan_keeps_command_values() {
    let t = CiTools::new(args(&["citool", "ci_path=/srv/app"]), None);
    let plan = t.run_plan();
    assert_eq!(plan.len(), 1);
    let c: &CiToolsCommand = &plan[0].0;
    assert_eq!(c.value, Some("/srv/app".to_string()));
    assert!(plan[0].1 == Handler::CiPath);
}

#[test]
fn default_handlers_on_empty_tool() {
    let mut t = CiTools { events: None, run_events: None, config: CiToolsSettings::new(None) };
    t.add_default_exec_function();
    assert_eq!(t.debug_events(), "[ping,help,ci_path]");
    citool::langs::CILangsTools::inic_exec_citools(&mut t);
    assert_eq!(t.debug_events(), ALL_NAMES);
}

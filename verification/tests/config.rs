use local_runner::config::{Command, Config, Service, ServiceState};
use local_runner::error::ProcessError;
use local_runner::process::{command_line, global_env_value, make_log_file_name, Process, ProcessState};
use local_runner::resolver::build_service;

fn pairs(p: &[(&str, &str)]) -> Vec<(String, String)> {
    p.iter().map(|(k, v)| (k.to_string(), v.to_string())).collect()
}

fn config_with(services: Vec<Service>, vars: Option<Vec<(String, String)>>) -> Config {
    Config {
        wait: None,
        services,
        hooks: None,
        env: None,
        vars,
        use_taskkill: false,
        disable_env_interpolation: false,
        disable_var_substitution: false,
    }
}

#[test]
fn parse_string_command_like_a_shell() {
    let cmd = Command::String("sh -c 'echo Hello, world!'".to_string());
    assert_eq!(
        cmd.parse(),
        Some(vec!["sh".to_string(), "-c".to_string(), "echo Hello, world!".to_string()])
    );
}

#[test]
fn parse_array_command_as_is() {
    let cmd = Command::Array(vec!["echo".to_string(), "a b".to_string()]);
    assert_eq!(cmd.parse(), Some(vec!["echo".to_string(), "a b".to_string()]));
}

#[test]
fn parse_unbalanced_quote_fails() {
    let cmd = Command::String("echo 'oops".to_string());
    assert_eq!(cmd.parse(), None);
}

#[test]
fn parse_with_subst_string_and_array() {
    let vars = pairs(&[("shell", "bash")]);
    let cmd = Command::String("{{ shell }} -c 'echo hi'".to_string());
    assert_eq!(
        cmd.parse_with_subst(&vars),
        Some(vec!["bash".to_string(), "-c".to_string(), "echo hi".to_string()])
    );
    let cmd = Command::Array(vec!["{{shell}}".to_string(), "-c".to_string(), ":".to_string()]);
    assert_eq!(
        cmd.parse_with_subst(&vars),
        Some(vec!["bash".to_string(), "-c".to_string(), ":".to_string()])
    );
}

#[test]
fn command_line_follows_disable_flag() {
    let mut config = config_with(vec![], Some(pairs(&[("x", "y")])));
    let cmd = Command::String("echo {{x}}".to_string());
    assert_eq!(command_line(&cmd, &config, "s").unwrap(), vec!["echo".to_string(), "y".to_string()]);
    config.disable_var_substitution = true;
    assert_eq!(command_line(&cmd, &config, "s").unwrap(), vec!["echo".to_string(), "{{x}}".to_string()]);
}

#[test]
fn command_line_parse_error_names_label() {
    let config = config_with(vec![], None);
    let cmd = Command::String("echo \"".to_string());
    match command_line(&cmd, &config, "svc") {
        Err(ProcessError::CommandParse(label)) => assert_eq!(label, "svc"),
        other => panic!("unexpected {:?}", other),
    }
}

#[test]
fn spawn_plan_builds_everything() {
    let mut service = build_service("web", vec![], None);
    service.cmd = Command::String("{{ bin }} --port 80".to_string());
    service.pwd = Some("/srv/{{ bin }}".to_string());
    service.env = Some(pairs(&[("A", "$HOME/x"), ("B", "plain")]));
    let config = config_with(vec![], Some(pairs(&[("bin", "server")])));
    let process = Process::new(&service).log_path("logs");
    assert_eq!(process.state, ProcessState::NotStarted);
    let plan = process.spawn_plan(&config, &pairs(&[("HOME", "/home/me")])).unwrap();
    assert_eq!(plan.command, vec!["server".to_string(), "--port".to_string(), "80".to_string()]);
    assert_eq!(plan.env, pairs(&[("A", "/home/me/x"), ("B", "plain")]));
    assert_eq!(plan.dir, Some("/srv/server".to_string()));
    assert_eq!(plan.log, Some(("logs".to_string(), "log-web.txt".to_string())));
    assert!(!plan.create_window);
}

#[test]
fn spawn_plan_without_interpolation_or_log_folder() {
    let mut service = build_service("db", vec![], None);
    service.env = Some(pairs(&[("A", "$HOME")]));
    service.create_window = Some(true);
    let mut config = config_with(vec![], None);
    config.disable_env_interpolation = true;
    let plan = Process::new(&service).spawn_plan(&config, &pairs(&[("HOME", "/h")])).unwrap();
    assert_eq!(plan.env, pairs(&[("A", "$HOME")]));
    assert_eq!(plan.log, None);
    assert_eq!(plan.dir, None);
    assert!(plan.create_window);
}

#[test]
fn spawn_plan_reports_unparsable_command() {
    let mut service = build_service("bad", vec![], None);
    service.cmd = Command::String("'".to_string());
    let config = config_with(vec![], None);
    match Process::new(&service).spawn_plan(&config, &vec![]) {
        Err(ProcessError::CommandParse(name)) => assert_eq!(name, "bad"),
        other => panic!("unexpected {:?}", other.map(|p| p.command)),
    }
}

#[test]
fn taskkill_when_window_or_asked() {
    let mut service = build_service("s", vec![], None);
    let p = Process::new(&service);
    assert!(!p.uses_taskkill(false));
    assert!(p.uses_taskkill(true));
    service.create_window = Some(true);
    assert!(Process::new(&service).uses_taskkill(false));
}

#[test]
fn log_file_names() {
    assert_eq!(make_log_file_name("web", ".txt"), "log-web.txt");
    assert_eq!(make_log_file_name("prepare", "-hook.txt"), "log-prepare-hook.txt");
    assert_eq!(make_log_file_name("db", "-condition.txt"), "log-db-condition.txt");
}

#[test]
fn build_service_sets_fields() {
    let s = build_service("A", vec!["B", "C"], Some(ServiceState::Disabled));
    assert_eq!(s.name, "A");
    assert_eq!(s.depends, Some(vec!["B".to_string(), "C".to_string()]));
    assert_eq!(s.state, Some(ServiceState::Disabled));
    let t = build_service("A", vec![], None);
    assert_eq!(t.depends, None);
    let copy = s.clone();
    assert_eq!(copy.name, "A");
    assert_eq!(copy.depends, s.depends);
}

#[test]
fn global_env_values_follow_the_interpolation_flag() {
    let mut config = config_with(vec![], None);
    let env = pairs(&[("HOME", "/home/u")]);
    assert_eq!(global_env_value("$HOME/.bin", &config, &env), "/home/u/.bin");
    config.disable_env_interpolation = true;
    assert_eq!(global_env_value("$HOME/.bin", &config, &env), "$HOME/.bin");
}

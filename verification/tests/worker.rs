use local_runner::config::{Command, Config, Service, ServiceRestartPolicy, ServiceState};
use local_runner::error::{DependencyError, WorkerError};
use local_runner::process::{Process, ProcessState};
use local_runner::resolver::build_service;
use local_runner::worker::{
    autostart_names, find_process, manual_start_order, mark_exited, mark_running, monitor_step,
    run_loop, running_processes, start_service_step, startup_order, startup_step, status_report,
    stop_target, unresolved_outcome, wait_time, LoopAction, LoopEvent, ManualStartAction, ManualStartEvent,
    MonitorAction, MonitorEvent, StartupAction, StartupEvent, StopTarget, WorkerMessage,
};

fn config_with(services: Vec<Service>) -> Config {
    Config {
        wait: Some(500),
        services,
        hooks: None,
        env: None,
        vars: None,
        use_taskkill: false,
        disable_env_interpolation: false,
        disable_var_substitution: false,
    }
}

fn running(service: &Service) -> Process {
    let mut p = Process::new(service);
    p.state = ProcessState::Running;
    p
}

#[test]
fn autostart_takes_enabled_services() {
    let services = vec![
        build_service("a", vec![], None),
        build_service("b", vec![], Some(ServiceState::Disabled)),
        build_service("c", vec![], Some(ServiceState::Enabled)),
        build_service("d", vec![], Some(ServiceState::Masked)),
    ];
    assert_eq!(autostart_names(&services), vec!["a".to_string(), "c".to_string()]);
}

#[test]
fn startup_order_pulls_in_disabled_dependencies() {
    let services = vec![
        build_service("web", vec!["db"], None),
        build_service("db", vec![], Some(ServiceState::Disabled)),
    ];
    let order = startup_order(&config_with(services)).unwrap();
    let names: Vec<String> = order.iter().map(|s| s.name.clone()).collect();
    assert_eq!(names, vec!["db".to_string(), "web".to_string()]);
}

#[test]
fn wait_prefers_the_service() {
    let mut s = build_service("a", vec![], None);
    let config = config_with(vec![]);
    assert_eq!(wait_time(&s, &config), Some(500));
    s.wait = Some(10);
    assert_eq!(wait_time(&s, &config), Some(10));
}

#[test]
fn startup_steps_through_the_order() {
    let mut a = build_service("a", vec![], None);
    a.cond = Some(Command::String("true".to_string()));
    let mut b = build_service("b", vec![], None);
    b.required = Some(true);
    let order = vec![a, b];
    let config = config_with(vec![]);
    assert!(matches!(startup_step(&order, &config, StartupEvent::Enter(0)), StartupAction::RunCondition(0)));
    assert!(matches!(startup_step(&order, &config, StartupEvent::ConditionChecked(0, false)), StartupAction::SkipByCondition(0)));
    assert!(matches!(startup_step(&order, &config, StartupEvent::ConditionChecked(0, true)), StartupAction::Spawn(0)));
    assert!(matches!(startup_step(&order, &config, StartupEvent::Spawned(0, false)), StartupAction::Wait(0, Some(500))));
    assert!(matches!(startup_step(&order, &config, StartupEvent::Waited(0, false)), StartupAction::Spawn(1)));
    assert!(matches!(
        startup_step(&order, &config, StartupEvent::Spawned(1, false)),
        StartupAction::Finish(Err(WorkerError::RequiredProcessGone))
    ));
    assert!(matches!(
        startup_step(&order, &config, StartupEvent::Waited(1, true)),
        StartupAction::Finish(Err(WorkerError::ManuallyStopped))
    ));
    assert!(matches!(startup_step(&order, &config, StartupEvent::Waited(1, false)), StartupAction::Finish(Ok(()))));
}

#[test]
fn startup_skips_masked() {
    let order = vec![build_service("m", vec![], Some(ServiceState::Masked))];
    let config = config_with(vec![]);
    assert!(matches!(startup_step(&order, &config, StartupEvent::Enter(0)), StartupAction::SkipMasked(0)));
}

#[test]
fn monitor_restarts_on_failure_once() {
    let mut s = build_service("a", vec![], None);
    s.restart = Some(ServiceRestartPolicy::OnFailure);
    let mut processes = vec![running(&s)];
    assert!(matches!(monitor_step(&mut processes, MonitorEvent::Begin), MonitorAction::Poll { at: 0, alive: 0 }));
    let a = monitor_step(&mut processes, MonitorEvent::Polled { at: 0, alive: 0, exit: Some(false) });
    assert!(matches!(a, MonitorAction::Respawn { at: 0, alive: 0 }));
    assert!(processes[0].restarted);
    assert_eq!(processes[0].state, ProcessState::Exited);
    mark_running(&mut processes, 0);
    // a second crash is not restarted; nothing else runs
    let a = monitor_step(&mut processes, MonitorEvent::Polled { at: 0, alive: 0, exit: Some(false) });
    assert!(matches!(a, MonitorAction::Finish(Err(WorkerError::AllServicesStopped))));
}

#[test]
fn monitor_success_not_restarted_on_failure_policy() {
    let mut s = build_service("a", vec![], None);
    s.restart = Some(ServiceRestartPolicy::OnFailure);
    let t = build_service("b", vec![], None);
    let mut processes = vec![running(&s), running(&t)];
    let a = monitor_step(&mut processes, MonitorEvent::Polled { at: 0, alive: 0, exit: Some(true) });
    assert!(matches!(a, MonitorAction::Poll { at: 1, alive: 0 }));
    let a = monitor_step(&mut processes, MonitorEvent::Polled { at: 1, alive: 0, exit: None });
    assert!(matches!(a, MonitorAction::Finish(Ok(()))));
}

#[test]
fn monitor_required_gone() {
    let mut s = build_service("a", vec![], None);
    s.required = Some(true);
    let mut processes = vec![running(&s)];
    let a = monitor_step(&mut processes, MonitorEvent::Polled { at: 0, alive: 0, exit: Some(true) });
    assert!(matches!(a, MonitorAction::Finish(Err(WorkerError::RequiredProcessGone))));
}

#[test]
fn monitor_required_restart_failure() {
    let mut s = build_service("a", vec![], None);
    s.required = Some(true);
    s.restart = Some(ServiceRestartPolicy::Always);
    let mut processes = vec![running(&s)];
    let a = monitor_step(&mut processes, MonitorEvent::Polled { at: 0, alive: 0, exit: Some(true) });
    assert!(matches!(a, MonitorAction::Respawn { at: 0, alive: 0 }));
    let a = monitor_step(&mut processes, MonitorEvent::Respawned { at: 0, alive: 0, ok: false });
    assert!(matches!(a, MonitorAction::Finish(Err(WorkerError::RequiredProcessGone))));
}

#[test]
fn monitor_nothing_running() {
    let s = build_service("a", vec![], None);
    let mut processes = vec![Process::new(&s)];
    let a = monitor_step(&mut processes, MonitorEvent::Begin);
    assert!(matches!(a, MonitorAction::Finish(Err(WorkerError::AllServicesStopped))));
}

#[test]
fn manual_start_decisions() {
    let a = build_service("a", vec![], None);
    let b = build_service("b", vec!["a"], None);
    let m = build_service("m", vec![], Some(ServiceState::Masked));
    let mut stopped = Process::new(&b);
    stopped.state = ProcessState::Exited;
    let processes = vec![running(&a), stopped];
    let order = vec![a.clone(), b.clone(), m.clone(), build_service("c", vec![], None)];
    let config = config_with(vec![]);
    assert!(matches!(start_service_step(&processes, &order, &config, ManualStartEvent::Enter(0)), ManualStartAction::AlreadyRunning(0, 0)));
    assert!(matches!(start_service_step(&processes, &order, &config, ManualStartEvent::Enter(1)), ManualStartAction::Respawn(1, 1)));
    assert!(matches!(start_service_step(&processes, &order, &config, ManualStartEvent::Enter(2)), ManualStartAction::SkipMasked(2)));
    assert!(matches!(start_service_step(&processes, &order, &config, ManualStartEvent::Enter(3)), ManualStartAction::SpawnNew(3)));
    assert!(matches!(start_service_step(&processes, &order, &config, ManualStartEvent::Started(3, true)), ManualStartAction::Wait(3, Some(500))));
    assert!(matches!(start_service_step(&processes, &order, &config, ManualStartEvent::Started(3, false)), ManualStartAction::Failed(3)));
    assert!(matches!(start_service_step(&processes, &order, &config, ManualStartEvent::Waited(3)), ManualStartAction::Finish));
}

#[test]
fn manual_start_order_includes_dependencies() {
    let services = vec![build_service("b", vec!["a"], None), build_service("a", vec![], None)];
    let order = manual_start_order(&config_with(services), &"b".to_string()).unwrap();
    let names: Vec<String> = order.iter().map(|s| s.name.clone()).collect();
    assert_eq!(names, vec!["a".to_string(), "b".to_string()]);
}

#[test]
fn stop_targets() {
    let a = build_service("a", vec![], None);
    let b = build_service("b", vec![], None);
    let mut processes = vec![running(&a), Process::new(&b)];
    assert_eq!(stop_target(&processes, &"a".to_string()), StopTarget::Kill(0));
    assert_eq!(stop_target(&processes, &"b".to_string()), StopTarget::NotRunning(1));
    assert_eq!(stop_target(&processes, &"z".to_string()), StopTarget::NotFound);
    mark_exited(&mut processes, 0);
    assert_eq!(stop_target(&processes, &"a".to_string()), StopTarget::NotRunning(0));
    assert_eq!(find_process(&processes, &"b".to_string()), Some(1));
}

#[test]
fn running_processes_in_order() {
    let a = build_service("a", vec![], None);
    let processes = vec![running(&a), Process::new(&a), running(&a)];
    assert_eq!(running_processes(&processes), vec![0, 2]);
}

#[test]
fn status_report_counts_and_texts() {
    let a = build_service("a", vec![], None);
    let b = build_service("b", vec![], Some(ServiceState::Disabled));
    let c = build_service("c", vec![], Some(ServiceState::Masked));
    let d = build_service("d", vec![], None);
    let mut ra = running(&a);
    ra.restarted = true;
    let mut ed = Process::new(&d);
    ed.state = ProcessState::Exited;
    let services = vec![a.clone(), b.clone(), c.clone(), d.clone()];
    let processes = vec![ra, ed];
    let report = status_report(&services, &processes);
    let lines: Vec<(String, String)> = report.lines.clone();
    assert_eq!(
        lines,
        vec![
            ("a".to_string(), "running (was restarted)".to_string()),
            ("b".to_string(), "not running (disabled)".to_string()),
            ("c".to_string(), "not running (masked)".to_string()),
            ("d".to_string(), "exited".to_string()),
        ]
    );
    assert_eq!(report.running, 1);
    assert_eq!(report.exited, 1);
    assert_eq!(report.total, 4);
}

#[test]
fn run_loop_decisions() {
    assert!(matches!(run_loop(LoopEvent::Received(WorkerMessage::PrintStatus)), LoopAction::Handle(WorkerMessage::PrintStatus)));
    assert!(matches!(run_loop(LoopEvent::Idle), LoopAction::Monitor));
    assert!(matches!(run_loop(LoopEvent::Disconnected), LoopAction::Shutdown(WorkerError::Disconnected)));
    assert!(matches!(run_loop(LoopEvent::Handled(Ok(()))), LoopAction::Monitor));
    assert!(matches!(run_loop(LoopEvent::Handled(Err(WorkerError::RequiredProcessGone))), LoopAction::Shutdown(WorkerError::RequiredProcessGone)));
    assert!(matches!(run_loop(LoopEvent::Monitored(Ok(()))), LoopAction::CheckStop));
    assert!(matches!(run_loop(LoopEvent::Monitored(Err(WorkerError::AllServicesStopped))), LoopAction::Shutdown(WorkerError::AllServicesStopped)));
    assert!(matches!(run_loop(LoopEvent::StopChecked(true)), LoopAction::Shutdown(WorkerError::ManuallyStopped)));
    assert!(matches!(run_loop(LoopEvent::StopChecked(false)), LoopAction::Receive));
}

#[test]
fn restart_after_stop_runs_the_same_process() {
    let a = build_service("a", vec![], None);
    let b = build_service("b", vec![], None);
    let mut processes = vec![running(&b), running(&a)];
    let order = vec![a.clone()];
    let config = config_with(vec![]);
    let target = stop_target(&processes, &"a".to_string());
    assert_eq!(target, StopTarget::Kill(1));
    mark_exited(&mut processes, 1);
    assert!(matches!(
        start_service_step(&processes, &order, &config, ManualStartEvent::Enter(0)),
        ManualStartAction::Respawn(0, 1)
    ));
}

#[test]
fn masked_service_never_gets_a_process() {
    let m = build_service("m", vec![], Some(ServiceState::Masked));
    let mut stopped = Process::new(&m);
    stopped.state = ProcessState::Exited;
    let processes = vec![stopped];
    let order = vec![m.clone()];
    let config = config_with(vec![]);
    assert!(matches!(
        start_service_step(&processes, &order, &config, ManualStartEvent::Enter(0)),
        ManualStartAction::SkipMasked(0)
    ));
    assert!(matches!(startup_step(&order, &config, StartupEvent::Enter(0)), StartupAction::SkipMasked(0)));
}

#[test]
fn lone_restarted_service_keeps_being_watched() {
    let mut s = build_service("a", vec![], None);
    s.restart = Some(ServiceRestartPolicy::Always);
    let mut processes = vec![running(&s)];
    let a = monitor_step(&mut processes, MonitorEvent::Polled { at: 0, alive: 0, exit: Some(true) });
    assert!(matches!(a, MonitorAction::Respawn { at: 0, alive: 0 }));
    mark_running(&mut processes, 0);
    let a = monitor_step(&mut processes, MonitorEvent::Respawned { at: 0, alive: 0, ok: true });
    assert!(matches!(a, MonitorAction::Finish(Ok(()))));
}

#[test]
fn on_failure_does_not_restart_a_required_success() {
    let mut s = build_service("a", vec![], None);
    s.restart = Some(ServiceRestartPolicy::OnFailure);
    s.required = Some(true);
    let mut processes = vec![running(&s)];
    let a = monitor_step(&mut processes, MonitorEvent::Polled { at: 0, alive: 0, exit: Some(true) });
    assert!(matches!(a, MonitorAction::Finish(Err(WorkerError::RequiredProcessGone))));
    assert!(!processes[0].restarted);
}

#[test]
fn unresolved_requests() {
    let r = unresolved_outcome(&WorkerMessage::AutostartServices, DependencyError::CyclicDepedencies);
    assert!(matches!(r, Err(WorkerError::Dependency(DependencyError::CyclicDepedencies))));
    let r = unresolved_outcome(&WorkerMessage::StartService("a".to_string()), DependencyError::MaskedDepedencies);
    assert!(r.is_ok());
}

//! The decisions of the worker that runs the services: which services start and in what
//! order, what happens when a process exits, what a request to start or stop a service does,
//! and when the worker stops. The worker's thread performs the actions and reports back.

use vstd::prelude::*;
use crate::config::{
    effective_state, pairs_view, services_view, strings_view, Config, Service,
    ServiceRestartPolicy, ServiceState, ServiceView,
};
use crate::error::{DependencyError, WorkerError};
use crate::process::{Process, ProcessState};
use crate::resolver::{is_masked, outcome_view, resolve_dependencies, resolved_services};
use crate::graph::{ascending_where, ints, lemma_ascending, lemma_ints_push};

verus! {

/// A request to the worker.
#[derive(Debug)]
pub enum WorkerMessage {
    AutostartServices,
    StartService(String),
    StopService(String),
    PrintStatus,
}

// ---------------------------------------------------------------------------------------------
// Starting all services
// ---------------------------------------------------------------------------------------------

/// The names of the services that start with the others (those enabled), in order.
pub open spec fn enabled_names(svcs: Seq<ServiceView>) -> Seq<Seq<char>>
    decreases svcs.len(),
{
    if svcs.len() == 0 {
        Seq::empty()
    } else {
        let prev = enabled_names(svcs.drop_last());
        if effective_state(svcs.last()) == ServiceState::Enabled {
            prev.push(svcs.last().name)
        } else {
            prev
        }
    }
}

/// The names of the enabled services, in order.
pub fn autostart_names(services: &Vec<Service>) -> (r: Vec<String>)
    ensures
        strings_view(r@) == enabled_names(services_view(services@)),
{
    let ghost svcs = services_view(services@);
    let mut r: Vec<String> = Vec::new();
    let mut i: usize = 0;
    while i < services.len()
        invariant
            svcs == services_view(services@),
            i <= services.len(),
            strings_view(r@) == enabled_names(svcs.subrange(0, i as int)),
        decreases services.len() - i,
    {
        proof {
            assert(svcs.subrange(0, i + 1).drop_last() =~= svcs.subrange(0, i as int));
            assert(svcs[i as int] == services@[i as int]@);
        }
        let enabled = match services[i].state {
            Some(ServiceState::Enabled) => true,
            None => true,
            _ => false,
        };
        if enabled {
            let ghost before = r@;
            r.push(services[i].name.clone());
            proof {
                assert(strings_view(r@) =~= strings_view(before).push(services@[i as int].name@));
            }
        }
        i = i + 1;
    }
    assert(svcs.subrange(0, services.len() as int) =~= svcs);
    r
}

/// The services to start with the others, in the order to start them: the enabled services and
/// all they depend on.
pub fn startup_order(config: &Config) -> (r: Result<Vec<Service>, DependencyError>)
    ensures
        outcome_view(r) == resolved_services(
            services_view(config.services@),
            enabled_names(services_view(config.services@)),
        ),
{
    let names = autostart_names(&config.services);
    resolve_dependencies(names, &config.services)
}

/// How long to wait after starting a service: its own wait, else the configuration's.
pub open spec fn wait_of(svc: ServiceView, config_wait: Option<u64>) -> Option<u64> {
    match svc.wait {
        Some(w) => Some(w),
        None => config_wait,
    }
}

/// How long to wait after starting a service: its own wait, else the configuration's.
pub fn wait_time(service: &Service, config: &Config) -> (r: Option<u64>)
    ensures
        r == wait_of(service@, config.wait),
{
    match service.wait {
        Some(w) => Some(w),
        None => config.wait,
    }
}

/// Whether a service is required: its exit stops everything.
pub open spec fn is_required(svc: ServiceView) -> bool {
    svc.required == Some(true)
}

/// What happened since the last step of starting all services.
#[derive(Debug)]
pub enum StartupEvent {
    /// Go on with the service at this place of the order.
    Enter(usize),
    /// The condition of the service at this place passed (`true`) or not, or could not run.
    ConditionChecked(usize, bool),
    /// The service at this place was started (`true`) or failed to start.
    Spawned(usize, bool),
    /// The wait after the service at this place is over; whether a stop was asked for.
    Waited(usize, bool),
}

/// What to do next when starting all services.
#[derive(Debug)]
pub enum StartupAction {
    /// The service at this place is masked: skip it, then go on with the next.
    SkipMasked(usize),
    /// Run the condition of the service at this place.
    RunCondition(usize),
    /// The condition did not pass: skip the service, then go on with the next.
    SkipByCondition(usize),
    /// Start the service at this place.
    Spawn(usize),
    /// Wait this long (if at all) after the service at this place, then say whether a stop was
    /// asked for.
    Wait(usize, Option<u64>),
    /// Starting is over, with this outcome.
    Finish(Result<(), WorkerError>),
}

/// Going on with the service at place `at`: past the end the start is over; a masked service
/// is skipped; a service with a condition has it checked first; any other is started.
pub open spec fn startup_enter(order: Seq<ServiceView>, at: usize) -> StartupAction {
    if at >= order.len() {
        StartupAction::Finish(Ok(()))
    } else if is_masked(order[at as int]) {
        StartupAction::SkipMasked(at)
    } else if order[at as int].cond is Some {
        StartupAction::RunCondition(at)
    } else {
        StartupAction::Spawn(at)
    }
}

/// The step of starting all services that `event` leads to, for the services in `order`.
pub open spec fn startup_transition(order: Seq<ServiceView>, config_wait: Option<u64>, event: StartupEvent) -> StartupAction {
    match event {
        StartupEvent::Enter(at) => startup_enter(order, at),
        StartupEvent::ConditionChecked(at, passed) => if passed {
            StartupAction::Spawn(at)
        } else {
            StartupAction::SkipByCondition(at)
        },
        StartupEvent::Spawned(at, ok) => if !ok && is_required(order[at as int]) {
            StartupAction::Finish(Err(WorkerError::RequiredProcessGone))
        } else {
            StartupAction::Wait(at, wait_of(order[at as int], config_wait))
        },
        StartupEvent::Waited(at, stopped) => if stopped {
            StartupAction::Finish(Err(WorkerError::ManuallyStopped))
        } else {
            startup_enter(order, (at + 1) as usize)
        },
    }
}

/// An event that refers to a service of the order (all but `Enter` must).
pub open spec fn startup_event_in_range(len: nat, event: StartupEvent) -> bool {
    match event {
        StartupEvent::Enter(_) => true,
        StartupEvent::ConditionChecked(at, _) => at < len,
        StartupEvent::Spawned(at, _) => at < len,
        StartupEvent::Waited(at, _) => at < len,
    }
}

/// One step of starting all services in `order`, which holds at least one service (with no
/// service to start, the program stops before, when it reports the order); masked services and
/// those whose condition does not pass are skipped; a required service that fails to start ends the start with
/// [`WorkerError::RequiredProcessGone`]; after each started service comes its wait, and a stop
/// asked for during it ends the start with [`WorkerError::ManuallyStopped`].
pub fn startup_step(order: &Vec<Service>, config: &Config, event: StartupEvent) -> (r: StartupAction)
    requires
        order.len() > 0,
        startup_event_in_range(order.len() as nat, event),
    ensures
        r == startup_transition(services_view(order@), config.wait, event),
{
    let ghost ov = services_view(order@);
    let at = match event {
        StartupEvent::Enter(at) => at,
        StartupEvent::ConditionChecked(at, passed) => {
            if passed {
                return StartupAction::Spawn(at);
            } else {
                return StartupAction::SkipByCondition(at);
            }
        },
        StartupEvent::Spawned(at, ok) => {
            assert(ov[at as int] == order@[at as int]@);
            let required = match order[at].required {
                Some(true) => true,
                _ => false,
            };
            if !ok && required {
                return StartupAction::Finish(Err(WorkerError::RequiredProcessGone));
            } else {
                return StartupAction::Wait(at, wait_time(&order[at], config));
            }
        },
        StartupEvent::Waited(at, stopped) => {
            if stopped {
                return StartupAction::Finish(Err(WorkerError::ManuallyStopped));
            }
            at + 1
        },
    };
    if at >= order.len() {
        return StartupAction::Finish(Ok(()));
    }
    assert(ov[at as int] == order@[at as int]@);
    let masked = match order[at].state {
        Some(ServiceState::Masked) => true,
        _ => false,
    };
    if masked {
        StartupAction::SkipMasked(at)
    } else if order[at].cond.is_some() {
        StartupAction::RunCondition(at)
    } else {
        StartupAction::Spawn(at)
    }
}

// ---------------------------------------------------------------------------------------------
// Watching the processes
// ---------------------------------------------------------------------------------------------

/// Whether a process that exited is started again: not if it was restarted before; always
/// under the policy `always`; under `on-failure` only when it crashed (a non-zero exit code).
pub open spec fn should_restart(svc: ServiceView, restarted: bool, success: bool) -> bool {
    let policy = match svc.restart {
        Some(p) => p,
        None => ServiceRestartPolicy::No,
    };
    !restarted && (policy == ServiceRestartPolicy::Always || (policy == ServiceRestartPolicy::OnFailure && !success))
}

/// The first running process at place `from` or later.
pub open spec fn next_running(procs: Seq<Process>, from: int) -> Option<int>
    decreases procs.len() - from,
{
    if from < 0 || from >= procs.len() {
        None
    } else if procs[from].state == ProcessState::Running {
        Some(from)
    } else {
        next_running(procs, from + 1)
    }
}

/// What happened since the last step of a pass over the processes.
#[derive(Debug)]
pub enum MonitorEvent {
    /// A new pass begins.
    Begin,
    /// The running process at `at` was polled: `None` while it runs, else whether it exited
    /// successfully; `alive` counts the processes found running so far.
    Polled { at: usize, alive: usize, exit: Option<bool> },
    /// The process at `at` was started again (`ok`) or failed to start.
    Respawned { at: usize, alive: usize, ok: bool },
}

/// What to do next in a pass over the processes.
#[derive(Debug)]
pub enum MonitorAction {
    /// Poll the running process at `at`.
    Poll { at: usize, alive: usize },
    /// Start the process at `at` again.
    Respawn { at: usize, alive: usize },
    /// The pass is over, with this outcome.
    Finish(Result<(), WorkerError>),
}

/// Going on from place `from`: poll the next running process, or end the pass, with
/// [`WorkerError::AllServicesStopped`] when none was found running.
pub open spec fn monitor_continue(procs: Seq<Process>, from: int, alive: usize) -> MonitorAction {
    match next_running(procs, from) {
        Some(i) => MonitorAction::Poll { at: i as usize, alive },
        None => MonitorAction::Finish(
            if alive == 0 {
                Err(WorkerError::AllServicesStopped)
            } else {
                Ok(())
            },
        ),
    }
}

/// An event that refers to a process of the list, counting at most the processes before it.
pub open spec fn monitor_event_in_range(len: nat, event: MonitorEvent) -> bool {
    match event {
        MonitorEvent::Begin => true,
        MonitorEvent::Polled { at, alive, exit } => at < len && alive <= at,
        MonitorEvent::Respawned { at, alive, ok } => at < len && alive <= at,
    }
}

/// The processes after the step that `event` leads to.
pub open spec fn monitor_processes_after(procs: Seq<Process>, event: MonitorEvent) -> Seq<Process> {
    match event {
        MonitorEvent::Polled { at, alive, exit: Some(success) } => {
            let p = procs[at as int];
            procs.update(
                at as int,
                Process {
                    state: ProcessState::Exited,
                    restarted: p.restarted || should_restart(p.service@, p.restarted, success),
                    ..p
                },
            )
        },
        _ => procs,
    }
}

/// The action of the step that `event` leads to.
pub open spec fn monitor_transition(procs: Seq<Process>, event: MonitorEvent) -> MonitorAction {
    match event {
        MonitorEvent::Begin => monitor_continue(procs, 0, 0),
        MonitorEvent::Polled { at, alive, exit } => match exit {
            None => monitor_continue(procs, at + 1, (alive + 1) as usize),
            Some(success) => {
                let p = procs[at as int];
                if should_restart(p.service@, p.restarted, success) {
                    MonitorAction::Respawn { at, alive }
                } else if is_required(p.service@) {
                    MonitorAction::Finish(Err(WorkerError::RequiredProcessGone))
                } else {
                    monitor_continue(procs, at + 1, alive)
                }
            },
        },
        MonitorEvent::Respawned { at, alive, ok } => if !ok && is_required(procs[at as int].service@) {
            MonitorAction::Finish(Err(WorkerError::RequiredProcessGone))
        } else if ok {
            monitor_continue(procs, at + 1, (alive + 1) as usize)
        } else {
            monitor_continue(procs, at + 1, alive)
        },
    }
}

/// The wait after a service belongs to that service: once the service at place `k` is
/// started (or fails to start without being required), the start waits the wait that service
/// sets, else the configuration's wait; the same holds after a service started on request.
pub proof fn law_wait_after_own_service(
    order: Seq<ServiceView>,
    procs: Seq<Process>,
    config_wait: Option<u64>,
    k: usize,
    ok: bool,
)
    requires
        k < order.len(),
    ensures
        (ok || order[k as int].required != Some(true)) ==> startup_transition(
            order,
            config_wait,
            StartupEvent::Spawned(k, ok),
        ) == StartupAction::Wait(
            k,
            match order[k as int].wait {
                Some(w) => Some(w),
                None => config_wait,
            },
        ),
        manual_transition(procs, order, config_wait, ManualStartEvent::Started(k, true)) == ManualStartAction::Wait(
            k,
            match order[k as int].wait {
                Some(w) => Some(w),
                None => config_wait,
            },
        ),
{
}

/// The restart policies, as the monitor applies them to a process that exited: `no` never
/// restarts; a process is restarted at most once; `always` restarts a process not restarted
/// before; `on-failure` restarts it exactly when it crashed. A process that was started again
/// counts as running, so the pass goes on watching it.
pub proof fn law_restart_policy(procs: Seq<Process>, at: usize, alive: usize, success: bool)
    requires
        at < procs.len(),
    ensures
        ({
            let p = procs[at as int];
            let action = monitor_transition(procs, MonitorEvent::Polled { at, alive, exit: Some(success) });
            let policy = p.service.restart;
            &&& (policy is None || policy == Some(ServiceRestartPolicy::No)) ==> !(action is Respawn)
            &&& p.restarted ==> !(action is Respawn)
            &&& (policy == Some(ServiceRestartPolicy::Always) && !p.restarted) ==> action == MonitorAction::Respawn { at, alive }
            &&& (policy == Some(ServiceRestartPolicy::OnFailure) && !p.restarted) ==> ((action is Respawn) <==> !success)
            &&& monitor_processes_after(procs, MonitorEvent::Polled { at, alive, exit: Some(success) })[at as int].state
                == ProcessState::Exited
        }),
{
}

/// A process that was started again is watched on: the pass that restarted it never ends
/// with [`WorkerError::AllServicesStopped`], even when it is the only one.
pub proof fn law_restarted_process_is_watched(procs: Seq<Process>, at: usize, alive: usize)
    requires
        at < procs.len(),
        alive <= at,
        procs.len() <= usize::MAX,
    ensures
        monitor_transition(procs, MonitorEvent::Respawned { at, alive, ok: true })
            != MonitorAction::Finish(Err(WorkerError::AllServicesStopped)),
{
}

/// The first running process at place `from` or later.
fn find_running(processes: &Vec<Process>, from: usize) -> (r: Option<usize>)
    ensures
        match next_running(processes@, from as int) {
            Some(i) => r == Some(i as usize),
            None => r is None,
        },
{
    if from >= processes.len() {
        return None;
    }
    let mut i = from;
    while i < processes.len()
        invariant
            from <= i <= processes.len(),
            next_running(processes@, from as int) == next_running(processes@, i as int),
        decreases processes.len() - i,
    {
        if processes[i].state == ProcessState::Running {
            return Some(i);
        }
        i = i + 1;
    }
    None
}

fn continue_monitor(processes: &Vec<Process>, from: usize, alive: usize) -> (r: MonitorAction)
    ensures
        r == monitor_continue(processes@, from as int, alive),
{
    match find_running(processes, from) {
        Some(i) => MonitorAction::Poll { at: i, alive },
        None => {
            if alive == 0 {
                MonitorAction::Finish(Err(WorkerError::AllServicesStopped))
            } else {
                MonitorAction::Finish(Ok(()))
            }
        },
    }
}

/// One step of a pass over the running processes: a process that exited is marked so, and is
/// restarted once if its restart policy asks for it; a required process that is gone for good
/// ends the pass with [`WorkerError::RequiredProcessGone`]; a pass that finds nothing running
/// ends with [`WorkerError::AllServicesStopped`].
pub fn monitor_step(processes: &mut Vec<Process>, event: MonitorEvent) -> (r: MonitorAction)
    requires
        monitor_event_in_range(old(processes)@.len(), event),
    ensures
        final(processes)@ == monitor_processes_after(old(processes)@, event),
        r == monitor_transition(old(processes)@, event),
{
    let n = processes.len();
    match event {
        MonitorEvent::Begin => continue_monitor(processes, 0, 0),
        MonitorEvent::Polled { at, alive, exit } => {
            match exit {
                None => continue_monitor(processes, at + 1, alive + 1),
                Some(success) => {
                    let policy = match processes[at].service.restart {
                        Some(p) => p,
                        None => ServiceRestartPolicy::No,
                    };
                    let required = match processes[at].service.required {
                        Some(true) => true,
                        _ => false,
                    };
                    let was_restarted = processes[at].restarted;
                    let restart = !was_restarted && (policy == ServiceRestartPolicy::Always || (policy
                        == ServiceRestartPolicy::OnFailure && !success));
                    let mut p = processes.remove(at);
                    p.state = ProcessState::Exited;
                    if restart {
                        p.restarted = true;
                    }
                    processes.insert(at, p);
                    assert(processes@ =~= monitor_processes_after(old(processes)@, event));
                    if restart {
                        MonitorAction::Respawn { at, alive }
                    } else if required {
                        MonitorAction::Finish(Err(WorkerError::RequiredProcessGone))
                    } else {
                        proof {
                            assert forall|j: int| at < j < processes@.len() implies processes@[j] == old(processes)@[j] by {}
                            lemma_next_running_frame(old(processes)@, processes@, at + 1);
                        }
                        continue_monitor(processes, at + 1, alive)
                    }
                },
            }
        },
        MonitorEvent::Respawned { at, alive, ok } => {
            let required = match processes[at].service.required {
                Some(true) => true,
                _ => false,
            };
            if !ok && required {
                MonitorAction::Finish(Err(WorkerError::RequiredProcessGone))
            } else if ok {
                continue_monitor(processes, at + 1, alive + 1)
            } else {
                continue_monitor(processes, at + 1, alive)
            }
        },
    }
}

/// Where two lists of processes agree from place `from` on, so does the next running one.
proof fn lemma_next_running_frame(a: Seq<Process>, b: Seq<Process>, from: int)
    requires
        a.len() == b.len(),
        forall|j: int| from <= j < a.len() ==> a[j] == b[j],
    ensures
        next_running(a, from) == next_running(b, from),
    decreases a.len() - from,
{
    if 0 <= from < a.len() {
        lemma_next_running_frame(a, b, from + 1);
    }
}

// ---------------------------------------------------------------------------------------------
// Starting one service on request
// ---------------------------------------------------------------------------------------------

/// The first process at place `from` or later whose service carries `name`.
pub open spec fn first_named_from(procs: Seq<Process>, name: Seq<char>, from: int) -> Option<int>
    decreases procs.len() - from,
{
    if from < 0 || from >= procs.len() {
        None
    } else if procs[from].service.name@ == name {
        Some(from)
    } else {
        first_named_from(procs, name, from + 1)
    }
}

/// The first process whose service carries `name`.
pub open spec fn first_named(procs: Seq<Process>, name: Seq<char>) -> Option<int> {
    first_named_from(procs, name, 0)
}

pub proof fn lemma_first_named_from(procs: Seq<Process>, name: Seq<char>, from: int)
    ensures
        first_named_from(procs, name, from) matches Some(i) ==> from <= i < procs.len() && procs[i].service.name@
            == name,
    decreases procs.len() - from,
{
    if 0 <= from < procs.len() {
        lemma_first_named_from(procs, name, from + 1);
    }
}

/// The place of the first process whose service carries `name`.
pub fn find_process(processes: &Vec<Process>, name: &String) -> (r: Option<usize>)
    ensures
        match first_named(processes@, name@) {
            Some(i) => r matches Some(k) && k as int == i && 0 <= i < processes@.len(),
            None => r is None,
        },
{
    proof {
        lemma_first_named_from(processes@, name@, 0);
    }
    let mut i: usize = 0;
    while i < processes.len()
        invariant
            i <= processes.len(),
            first_named(processes@, name@) == first_named_from(processes@, name@, i as int),
        decreases processes.len() - i,
    {
        if processes[i].service.name == *name {
            return Some(i);
        }
        i = i + 1;
    }
    None
}

/// What a request comes to when the services it starts cannot be put in order: starting all
/// services fails, and the worker stops with that error; a request to start one service
/// starts nothing and the worker goes on.
pub fn unresolved_outcome(request: &WorkerMessage, error: DependencyError) -> (r: Result<(), WorkerError>)
    ensures
        match request {
            WorkerMessage::AutostartServices => r matches Err(WorkerError::Dependency(d)) && d@ == error@,
            _ => r is Ok,
        },
{
    match request {
        WorkerMessage::AutostartServices => Err(WorkerError::Dependency(error)),
        _ => Ok(()),
    }
}

/// The services to start on a request to start `name`: it and all it depends on, in order.
pub fn manual_start_order(config: &Config, name: &String) -> (r: Result<Vec<Service>, DependencyError>)
    ensures
        outcome_view(r) == resolved_services(services_view(config.services@), seq![name@]),
{
    let mut names: Vec<String> = Vec::new();
    names.push(name.clone());
    assert(strings_view(names@) =~= seq![name@]);
    resolve_dependencies(names, &config.services)
}

/// What happened since the last step of starting a service on request.
#[derive(Debug)]
pub enum ManualStartEvent {
    /// Go on with the service at this place of the order.
    Enter(usize),
    /// The service at this place was started (`true`) or failed to start.
    Started(usize, bool),
    /// The wait after the service at this place is over.
    Waited(usize),
}

/// What to do next when starting a service on request. After each action but `Wait` and
/// `Finish`, go on with the next place.
#[derive(Debug)]
pub enum ManualStartAction {
    /// The service at this place is masked and is not started.
    SkipMasked(usize),
    /// The service at this place already runs, as the process at the second place.
    AlreadyRunning(usize, usize),
    /// Start again the process at the second place, of the service at the first.
    Respawn(usize, usize),
    /// Start a new process for the service at this place, and add it to the processes.
    SpawnNew(usize),
    /// The service at this place failed to start.
    Failed(usize),
    /// Wait this long (if at all) after the service at this place.
    Wait(usize, Option<u64>),
    /// Nothing is left to start.
    Finish,
}

/// Going on with the service at place `at`.
pub open spec fn manual_enter(procs: Seq<Process>, order: Seq<ServiceView>, at: usize) -> ManualStartAction {
    if at >= order.len() {
        ManualStartAction::Finish
    } else if is_masked(order[at as int]) {
        ManualStartAction::SkipMasked(at)
    } else {
        match first_named(procs, order[at as int].name) {
            Some(i) => if procs[i].state == ProcessState::Running {
                ManualStartAction::AlreadyRunning(at, i as usize)
            } else {
                ManualStartAction::Respawn(at, i as usize)
            },
            None => ManualStartAction::SpawnNew(at),
        }
    }
}

/// The step of starting a service on request that `event` leads to.
pub open spec fn manual_transition(
    procs: Seq<Process>,
    order: Seq<ServiceView>,
    config_wait: Option<u64>,
    event: ManualStartEvent,
) -> ManualStartAction {
    match event {
        ManualStartEvent::Enter(at) => manual_enter(procs, order, at),
        ManualStartEvent::Started(at, ok) => if ok {
            ManualStartAction::Wait(at, wait_of(order[at as int], config_wait))
        } else {
            ManualStartAction::Failed(at)
        },
        ManualStartEvent::Waited(at) => manual_enter(procs, order, (at + 1) as usize),
    }
}

/// An event that refers to a service of the order (all but `Enter` must).
pub open spec fn manual_event_in_range(len: nat, event: ManualStartEvent) -> bool {
    match event {
        ManualStartEvent::Enter(_) => true,
        ManualStartEvent::Started(at, _) => at < len,
        ManualStartEvent::Waited(at) => at < len,
    }
}

/// One step of starting the services in `order` on request: masked services are not
/// started; a service that already runs is left as it is; one with a process that does not run
/// has that process started again; any other gets a new process; each started service is
/// followed by its wait.
pub fn start_service_step(processes: &Vec<Process>, order: &Vec<Service>, config: &Config, event: ManualStartEvent) -> (r:
    ManualStartAction)
    requires
        manual_event_in_range(order.len() as nat, event),
    ensures
        r == manual_transition(processes@, services_view(order@), config.wait, event),
{
    let ghost ov = services_view(order@);
    let at = match event {
        ManualStartEvent::Enter(at) => at,
        ManualStartEvent::Started(at, ok) => {
            if ok {
                assert(ov[at as int] == order@[at as int]@);
                return ManualStartAction::Wait(at, wait_time(&order[at], config));
            } else {
                return ManualStartAction::Failed(at);
            }
        },
        ManualStartEvent::Waited(at) => at + 1,
    };
    if at >= order.len() {
        return ManualStartAction::Finish;
    }
    assert(ov[at as int] == order@[at as int]@);
    let masked = match order[at].state {
        Some(ServiceState::Masked) => true,
        _ => false,
    };
    if masked {
        return ManualStartAction::SkipMasked(at);
    }
    match find_process(processes, &order[at].name) {
        Some(i) => {
            if processes[i].state == ProcessState::Running {
                ManualStartAction::AlreadyRunning(at, i)
            } else {
                ManualStartAction::Respawn(at, i)
            }
        },
        None => ManualStartAction::SpawnNew(at),
    }
}

// ---------------------------------------------------------------------------------------------
// Stopping
// ---------------------------------------------------------------------------------------------

/// What a request to stop a service comes to.
#[derive(Debug, PartialEq, Eq, Structural)]
pub enum StopTarget {
    /// No process carries that service.
    NotFound,
    /// The first process of that service, at this place, does not run.
    NotRunning(usize),
    /// Kill the process at this place, the first of that service, then mark it exited.
    Kill(usize),
}

/// What a request to stop the service `name` comes to: only the first process of that name
/// counts.
pub open spec fn stop_decision(procs: Seq<Process>, name: Seq<char>) -> StopTarget {
    match first_named(procs, name) {
        None => StopTarget::NotFound,
        Some(i) => if procs[i].state == ProcessState::Running {
            StopTarget::Kill(i as usize)
        } else {
            StopTarget::NotRunning(i as usize)
        },
    }
}

/// What a request to stop the service `name` comes to: only the first process of that name
/// counts.
pub fn stop_target(processes: &Vec<Process>, name: &String) -> (r: StopTarget)
    ensures
        r == stop_decision(processes@, name@),
{
    match find_process(processes, name) {
        None => StopTarget::NotFound,
        Some(i) => {
            assert(first_named(processes@, name@) == Some(i as int));
            if processes[i].state == ProcessState::Running {
                assert(processes@[i as int].state == ProcessState::Running);
                StopTarget::Kill(i)
            } else {
                StopTarget::NotRunning(i)
            }
        },
    }
}

/// Where two lists of processes carry the same names, the first process of a name is at the
/// same place in both.
pub proof fn lemma_first_named_same_names(a: Seq<Process>, b: Seq<Process>, name: Seq<char>, from: int)
    requires
        a.len() == b.len(),
        forall|j: int| 0 <= j < a.len() ==> #[trigger] a[j].service.name@ == b[j].service.name@,
    ensures
        first_named_from(a, name, from) == first_named_from(b, name, from),
    decreases a.len() - from,
{
    if 0 <= from < a.len() {
        lemma_first_named_same_names(a, b, name, from + 1);
    }
}

/// Restarting a service on request, a stop and then a start, starts it again: when the stop
/// kills a process (and it is then marked exited), or finds it not running, the start runs
/// that same process again; when no process carries the service, the start makes a new one.
pub proof fn law_restart_after_stop(procs: Seq<Process>, order: Seq<ServiceView>, at: usize)
    requires
        at < order.len(),
        !is_masked(order[at as int]),
        procs.len() <= usize::MAX,
    ensures
        ({
            let name = order[at as int].name;
            match stop_decision(procs, name) {
                StopTarget::Kill(i) => manual_enter(
                    procs.update(i as int, Process { state: ProcessState::Exited, ..procs[i as int] }),
                    order,
                    at,
                ) == ManualStartAction::Respawn(at, i),
                StopTarget::NotRunning(i) => manual_enter(procs, order, at) == ManualStartAction::Respawn(at, i),
                StopTarget::NotFound => manual_enter(procs, order, at) == ManualStartAction::SpawnNew(at),
            }
        }),
{
    let name = order[at as int].name;
    lemma_first_named_from(procs, name, 0);
    if let Some(i) = first_named(procs, name) {
        if procs[i].state == ProcessState::Running {
            let after = procs.update(i, Process { state: ProcessState::Exited, ..procs[i] });
            assert forall|j: int| 0 <= j < procs.len() implies #[trigger] procs[j].service.name@ == after[j].service.name@ by {}
            lemma_first_named_same_names(procs, after, name, 0);
        }
    }
}

/// A masked service gets no process on request, neither a new one nor a restarted one.
pub proof fn law_masked_not_started_on_request(
    procs: Seq<Process>,
    order: Seq<ServiceView>,
    config_wait: Option<u64>,
    event: ManualStartEvent,
)
    requires
        manual_event_in_range(order.len(), event),
    ensures
        manual_transition(procs, order, config_wait, event) matches ManualStartAction::SpawnNew(at) ==> !is_masked(
            order[at as int],
        ),
        manual_transition(procs, order, config_wait, event) matches ManualStartAction::Respawn(at, i) ==> !is_masked(
            order[at as int],
        ),
{
}

/// A masked service is not started with the others: its condition does not run and it gets no
/// process, as long as each condition outcome answers a request to run that condition (which
/// never concerns a masked service).
pub proof fn law_masked_not_started_at_startup(order: Seq<ServiceView>, config_wait: Option<u64>, event: StartupEvent)
    requires
        startup_event_in_range(order.len(), event),
        event matches StartupEvent::ConditionChecked(at, passed) ==> !is_masked(order[at as int]),
    ensures
        startup_transition(order, config_wait, event) matches StartupAction::Spawn(at) ==> !is_masked(
            order[at as int],
        ),
        startup_transition(order, config_wait, event) matches StartupAction::RunCondition(at) ==> !is_masked(
            order[at as int],
        ),
{
}

/// Marks the process at `at` as exited.
pub fn mark_exited(processes: &mut Vec<Process>, at: usize)
    requires
        at < old(processes)@.len(),
    ensures
        final(processes)@ == old(processes)@.update(
            at as int,
            Process { state: ProcessState::Exited, ..old(processes)@[at as int] },
        ),
{
    let mut p = processes.remove(at);
    p.state = ProcessState::Exited;
    processes.insert(at, p);
    assert(processes@ =~= old(processes)@.update(
        at as int,
        Process { state: ProcessState::Exited, ..old(processes)@[at as int] },
    ));
}

/// Marks the process at `at` as running: it was just started.
pub fn mark_running(processes: &mut Vec<Process>, at: usize)
    requires
        at < old(processes)@.len(),
    ensures
        final(processes)@ == old(processes)@.update(
            at as int,
            Process { state: ProcessState::Running, ..old(processes)@[at as int] },
        ),
{
    let mut p = processes.remove(at);
    p.state = ProcessState::Running;
    processes.insert(at, p);
    assert(processes@ =~= old(processes)@.update(
        at as int,
        Process { state: ProcessState::Running, ..old(processes)@[at as int] },
    ));
}

/// The places of the running processes, in order: those that shutting down kills.
pub fn running_processes(processes: &Vec<Process>) -> (r: Vec<usize>)
    ensures
        ints(r@) == ascending_where(processes@.len() as int, |i: int| processes@[i].state == ProcessState::Running),
{
    let ghost pred = |i: int| processes@[i].state == ProcessState::Running;
    let mut r: Vec<usize> = Vec::new();
    let mut i: usize = 0;
    while i < processes.len()
        invariant
            pred == (|i: int| processes@[i].state == ProcessState::Running),
            i <= processes.len(),
            ints(r@) == ascending_where(i as int, pred),
        decreases processes.len() - i,
    {
        if processes[i].state == ProcessState::Running {
            let ghost before = r@;
            r.push(i);
            proof {
                lemma_ints_push(before, i);
            }
        }
        i = i + 1;
    }
    r
}

// ---------------------------------------------------------------------------------------------
// The status report
// ---------------------------------------------------------------------------------------------

/// The status of a service that no process tells about.
pub open spec fn default_status(svc: ServiceView) -> Seq<char> {
    match svc.state {
        Some(ServiceState::Disabled) => "not running (disabled)"@,
        Some(ServiceState::Masked) => "not running (masked)"@,
        _ => "not running"@,
    }
}

/// The status a process tells, or `prev` if it has not run.
pub open spec fn status_from(p: Process, prev: Seq<char>) -> Seq<char> {
    match p.state {
        ProcessState::Running => if p.restarted {
            "running (was restarted)"@
        } else {
            "running"@
        },
        ProcessState::Exited => "exited"@,
        ProcessState::NotStarted => prev,
    }
}

/// The status of the service `name`: that of the last of its processes that has run, else
/// `init`.
pub open spec fn status_of(procs: Seq<Process>, name: Seq<char>, init: Seq<char>) -> Seq<char>
    decreases procs.len(),
{
    if procs.len() == 0 {
        init
    } else {
        let prev = status_of(procs.drop_last(), name, init);
        if procs.last().service.name@ == name {
            status_from(procs.last(), prev)
        } else {
            prev
        }
    }
}

/// How many processes of the service `name` are in state `st`.
pub open spec fn count_in_state(procs: Seq<Process>, name: Seq<char>, st: ProcessState) -> nat
    decreases procs.len(),
{
    if procs.len() == 0 {
        0
    } else {
        count_in_state(procs.drop_last(), name, st) + (if procs.last().service.name@ == name
            && procs.last().state == st {
            1nat
        } else {
            0nat
        })
    }
}

/// The count of processes in state `st`, summed over the services.
pub open spec fn total_in_state(svcs: Seq<ServiceView>, procs: Seq<Process>, st: ProcessState) -> nat
    decreases svcs.len(),
{
    if svcs.len() == 0 {
        0
    } else {
        total_in_state(svcs.drop_last(), procs, st) + count_in_state(procs, svcs.last().name, st)
    }
}

/// The status a running process tells is "running (was restarted)" exactly when that process
/// was restarted, and "running" otherwise, whatever the restart policy of its service; an
/// exited process tells "exited". The last process of a service that has run decides.
pub proof fn law_status_of_last_process(procs: Seq<Process>, name: Seq<char>, init: Seq<char>)
    requires
        procs.len() > 0,
        procs.last().service.name@ == name,
    ensures
        procs.last().state == ProcessState::Running && procs.last().restarted ==> status_of(procs, name, init)
            == "running (was restarted)"@,
        procs.last().state == ProcessState::Running && !procs.last().restarted ==> status_of(procs, name, init)
            == "running"@,
        procs.last().state == ProcessState::Exited ==> status_of(procs, name, init) == "exited"@,
{
}

/// The status of each service, and the counts of running and exited processes and of services.
#[derive(Debug)]
pub struct StatusReport {
    /// Each service's name and status, in the order of the services.
    pub lines: Vec<(String, String)>,
    pub running: usize,
    pub exited: usize,
    pub total: usize,
}

pub proof fn lemma_count_in_state_bound(procs: Seq<Process>, name: Seq<char>, st: ProcessState)
    ensures
        count_in_state(procs, name, st) <= procs.len(),
    decreases procs.len(),
{
    if procs.len() > 0 {
        lemma_count_in_state_bound(procs.drop_last(), name, st);
    }
}

fn status_text(s: &str) -> (r: String)
    ensures
        r@ == s@,
{
    s.to_owned()
}

/// The status report: each service's status (by the last of its processes that has run, else
/// by its state), and how many processes run and have exited, counted per service.
pub fn status_report(services: &Vec<Service>, processes: &Vec<Process>) -> (r: StatusReport)
    requires
        services.len() * processes.len() <= usize::MAX,
    ensures
        pairs_view(r.lines@) == services_view(services@).map_values(
            |s: ServiceView| (s.name, status_of(processes@, s.name, default_status(s))),
        ),
        r.running == total_in_state(services_view(services@), processes@, ProcessState::Running),
        r.exited == total_in_state(services_view(services@), processes@, ProcessState::Exited),
        r.total == services.len(),
{
    let ghost svcs = services_view(services@);
    let ghost procs = processes@;
    let n = services.len();
    let m = processes.len();
    let mut lines: Vec<(String, String)> = Vec::new();
    let mut running: usize = 0;
    let mut exited: usize = 0;
    let mut i: usize = 0;
    while i < n
        invariant
            svcs == services_view(services@),
            procs == processes@,
            n == services.len(),
            m == processes.len(),
            n * m <= usize::MAX,
            i <= n,
            pairs_view(lines@) =~= svcs.subrange(0, i as int).map_values(
                |s: ServiceView| (s.name, status_of(procs, s.name, default_status(s))),
            ),
            running == total_in_state(svcs.subrange(0, i as int), procs, ProcessState::Running),
            exited == total_in_state(svcs.subrange(0, i as int), procs, ProcessState::Exited),
            running <= i * m,
            exited <= i * m,
        decreases n - i,
    {
        let ghost name = services@[i as int].name@;
        assert(svcs[i as int] == services@[i as int]@);
        assert((i + 1) * m <= n * m) by (nonlinear_arith)
            requires
                i < n,
        ;
        assert((i + 1) * m == i * m + m) by (nonlinear_arith);
        let mut text = match services[i].state {
            Some(ServiceState::Disabled) => status_text("not running (disabled)"),
            Some(ServiceState::Masked) => status_text("not running (masked)"),
            _ => status_text("not running"),
        };
        let ghost init = text@;
        let ghost run0 = running;
        let ghost ex0 = exited;
        let mut j: usize = 0;
        while j < m
            invariant
                procs == processes@,
                m == processes.len(),
                n == services.len(),
                i < n,
                j <= m,
                name == services@[i as int].name@,
                text@ == status_of(procs.subrange(0, j as int), name, init),
                running == run0 + count_in_state(procs.subrange(0, j as int), name, ProcessState::Running),
                exited == ex0 + count_in_state(procs.subrange(0, j as int), name, ProcessState::Exited),
                run0 <= i * m,
                ex0 <= i * m,
                (i + 1) * m <= n * m,
                (i + 1) * m == i * m + m,
                n * m <= usize::MAX,
                running <= run0 + j,
                exited <= ex0 + j,
            decreases m - j,
        {
            proof {
                assert(procs.subrange(0, j + 1).drop_last() =~= procs.subrange(0, j as int));
            }
            if processes[j].service.name == services[i].name {
                match processes[j].state {
                    ProcessState::Running => {
                        if processes[j].restarted {
                            text = status_text("running (was restarted)");
                        } else {
                            text = status_text("running");
                        }
                        running = running + 1;
                    },
                    ProcessState::Exited => {
                        text = status_text("exited");
                        exited = exited + 1;
                    },
                    ProcessState::NotStarted => {},
                }
            }
            j = j + 1;
        }
        proof {
            assert(procs.subrange(0, m as int) =~= procs);
            assert(svcs.subrange(0, i + 1).drop_last() =~= svcs.subrange(0, i as int));
        }
        let ghost before = lines@;
        let label = services[i].name.clone();
        lines.push((label, text));
        proof {
            assert(pairs_view(lines@) =~= pairs_view(before).push((name, status_of(procs, name, init))));
            assert(svcs.subrange(0, i + 1) =~= svcs.subrange(0, i as int).push(svcs[i as int]));
        }
        i = i + 1;
    }
    assert(svcs.subrange(0, n as int) =~= svcs);
    StatusReport { lines, running, exited, total: n }
}

// ---------------------------------------------------------------------------------------------
// The worker's loop
// ---------------------------------------------------------------------------------------------

/// What happened since the last step of the worker's loop.
#[derive(Debug)]
pub enum LoopEvent {
    /// A request came in.
    Received(WorkerMessage),
    /// No request was waiting.
    Idle,
    /// The requests can no longer come: the sender is gone.
    Disconnected,
    /// The request was handled, with this outcome.
    Handled(Result<(), WorkerError>),
    /// A pass over the processes ended, with this outcome.
    Monitored(Result<(), WorkerError>),
    /// Whether a stop was asked for.
    StopChecked(bool),
}

/// What the worker's loop does next.
#[derive(Debug)]
pub enum LoopAction {
    /// Handle this request.
    Handle(WorkerMessage),
    /// Make a pass over the processes.
    Monitor,
    /// Check whether a stop was asked for.
    CheckStop,
    /// Look for the next request.
    Receive,
    /// Kill the processes, run the cleanup hook, and end with this error.
    Shutdown(WorkerError),
}

/// One step of the worker's loop: a request is handled, then the processes are watched, then
/// the stop flag is read, and again; any failure, a lost sender, or a stop ends the loop.
pub fn run_loop(event: LoopEvent) -> (r: LoopAction)
    ensures
        r == match event {
            LoopEvent::Received(m) => LoopAction::Handle(m),
            LoopEvent::Idle => LoopAction::Monitor,
            LoopEvent::Disconnected => LoopAction::Shutdown(WorkerError::Disconnected),
            LoopEvent::Handled(Ok(())) => LoopAction::Monitor,
            LoopEvent::Handled(Err(e)) => LoopAction::Shutdown(e),
            LoopEvent::Monitored(Ok(())) => LoopAction::CheckStop,
            LoopEvent::Monitored(Err(e)) => LoopAction::Shutdown(e),
            LoopEvent::StopChecked(true) => LoopAction::Shutdown(WorkerError::ManuallyStopped),
            LoopEvent::StopChecked(false) => LoopAction::Receive,
        },
{
    match event {
        LoopEvent::Received(m) => LoopAction::Handle(m),
        LoopEvent::Idle => LoopAction::Monitor,
        LoopEvent::Disconnected => LoopAction::Shutdown(WorkerError::Disconnected),
        LoopEvent::Handled(Ok(())) => LoopAction::Monitor,
        LoopEvent::Handled(Err(e)) => LoopAction::Shutdown(e),
        LoopEvent::Monitored(Ok(())) => LoopAction::CheckStop,
        LoopEvent::Monitored(Err(e)) => LoopAction::Shutdown(e),
        LoopEvent::StopChecked(stopped) => {
            if stopped {
                LoopAction::Shutdown(WorkerError::ManuallyStopped)
            } else {
                LoopAction::Receive
            }
        },
    }
}

} // verus!

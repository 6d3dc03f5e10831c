//! The configuration model: what a services file describes, and the command line.

use vstd::prelude::*;
use crate::outside::{shlex_split, shlex_words};
use crate::utils::{substitute_global_vars, substituted};

verus! {

/// The subcommands that talk to an already running instance.
#[derive(Debug, Clone)]
pub enum CommandArgs {
    /// Restart a specified service from the config file (if daemon is running)
    Restart { service: String },
    /// Start a specified service (or multiple via tag) from the config file (if daemon is running)
    Start { tag: bool, service_or_tag: String },
    /// Stop a specified service from the config file (if daemon is running)
    Stop { service: String },
    /// Prints status of running/exited services (if daemon is running)
    Status,
    /// Stops all running services (if daemon is running)
    Shutdown,
}

/// Run multiple services from a TOML file.
#[derive(Debug, Clone)]
pub struct Args {
    /// path to config file with services to run
    pub path: String,
    /// path to folder to write log files to
    pub logs: String,
    pub command: Option<CommandArgs>,
}

/// A command line, either as one string split like a POSIX shell would, or as a list of words.
#[derive(Debug)]
pub enum Command {
    String(String),
    Array(Vec<String>),
}

/// The mathematical value of a [`Command`].
pub enum CommandView {
    Text(Seq<char>),
    Words(Seq<Seq<char>>),
}

/// The characters of each string of a sequence.
pub open spec fn strings_view(v: Seq<String>) -> Seq<Seq<char>> {
    v.map_values(|s: String| s@)
}

/// The characters of each key and value of a list of pairs.
pub open spec fn pairs_view(v: Seq<(String, String)>) -> Seq<(Seq<char>, Seq<char>)> {
    v.map_values(|p: (String, String)| (p.0@, p.1@))
}

pub open spec fn opt_string_view(o: Option<String>) -> Option<Seq<char>> {
    match o {
        Some(s) => Some(s@),
        None => None,
    }
}

pub open spec fn opt_strings_view(o: Option<Vec<String>>) -> Option<Seq<Seq<char>>> {
    match o {
        Some(v) => Some(strings_view(v@)),
        None => None,
    }
}

pub open spec fn opt_pairs_view(o: Option<Vec<(String, String)>>) -> Option<Seq<(Seq<char>, Seq<char>)>> {
    match o {
        Some(v) => Some(pairs_view(v@)),
        None => None,
    }
}

pub open spec fn opt_command_view(o: Option<Command>) -> Option<CommandView> {
    match o {
        Some(c) => Some(c@),
        None => None,
    }
}

impl View for Command {
    type V = CommandView;

    open spec fn view(&self) -> CommandView {
        match self {
            Command::String(s) => CommandView::Text(s@),
            Command::Array(v) => CommandView::Words(strings_view(v@)),
        }
    }
}

/// A copy of a list of strings.
pub fn copy_strings(v: &Vec<String>) -> (r: Vec<String>)
    ensures
        r@ == v@,
{
    let mut r: Vec<String> = Vec::new();
    let mut i: usize = 0;
    while i < v.len()
        invariant
            i <= v.len(),
            r@ == v@.subrange(0, i as int),
        decreases v.len() - i,
    {
        r.push(v[i].clone());
        i = i + 1;
    }
    assert(r@ =~= v@);
    r
}

/// A copy of a list of key/value pairs.
pub fn copy_pairs(v: &Vec<(String, String)>) -> (r: Vec<(String, String)>)
    ensures
        r@ == v@,
{
    let mut r: Vec<(String, String)> = Vec::new();
    let mut i: usize = 0;
    while i < v.len()
        invariant
            i <= v.len(),
            r@ == v@.subrange(0, i as int),
        decreases v.len() - i,
    {
        let k = v[i].0.clone();
        let x = v[i].1.clone();
        r.push((k, x));
        i = i + 1;
    }
    assert(r@ =~= v@);
    r
}

fn copy_opt_string(o: &Option<String>) -> (r: Option<String>)
    ensures
        r == *o,
{
    match o {
        Some(s) => Some(s.clone()),
        None => None,
    }
}

fn copy_opt_strings(o: &Option<Vec<String>>) -> (r: Option<Vec<String>>)
    ensures
        opt_strings_view(r) == opt_strings_view(*o),
{
    match o {
        Some(v) => Some(copy_strings(v)),
        None => None,
    }
}

fn copy_opt_pairs(o: &Option<Vec<(String, String)>>) -> (r: Option<Vec<(String, String)>>)
    ensures
        opt_pairs_view(r) == opt_pairs_view(*o),
{
    match o {
        Some(v) => Some(copy_pairs(v)),
        None => None,
    }
}

impl Clone for Command {
    fn clone(&self) -> (r: Self)
        ensures
            r@ == self@,
    {
        match self {
            Command::String(s) => Command::String(s.clone()),
            Command::Array(v) => Command::Array(copy_strings(v)),
        }
    }
}

fn copy_opt_command(o: &Option<Command>) -> (r: Option<Command>)
    ensures
        opt_command_view(r) == opt_command_view(*o),
{
    match o {
        Some(c) => Some(c.clone()),
        None => None,
    }
}

/// Commands run around the services.
#[derive(Debug)]
pub struct Hooks {
    /// runs before services are started
    pub prepare: Option<Command>,
    /// runs after all services were killed
    pub cleanup: Option<Command>,
}

impl Clone for Hooks {
    fn clone(&self) -> (r: Self)
        ensures
            opt_command_view(r.prepare) == opt_command_view(self.prepare),
            opt_command_view(r.cleanup) == opt_command_view(self.cleanup),
    {
        Hooks { prepare: copy_opt_command(&self.prepare), cleanup: copy_opt_command(&self.cleanup) }
    }
}

/// When a service that exited is started again.
#[derive(Debug, Clone, Copy, PartialEq, Eq, Structural, Default)]
pub enum ServiceRestartPolicy {
    #[default]
    No,
    OnFailure,
    Always,
}

/// Whether a service starts with the others, only on demand, or never.
#[derive(Debug, Clone, Copy, PartialEq, Eq, Structural, Default)]
pub enum ServiceState {
    #[default]
    Enabled,
    Disabled,
    Masked,
}

/// One service of the configuration.
#[derive(Debug)]
pub struct Service {
    /// The name of the service shown in the CLI output, also used for the `depends` field
    pub name: String,
    /// A command parsed like in a POSIX shell (using `shlex`)
    pub cmd: Command,
    /// The working directory of the invoked command, defaults to pwd of service runner
    pub pwd: Option<String>,
    /// A command whose exit code determines whether the service is started or not
    pub cond: Option<Command>,
    /// Additional environment variables to set for the invoked process
    pub env: Option<Vec<(String, String)>>,
    /// Kill other processes when this process crashes
    pub required: Option<bool>,
    /// Restart process when it crashes (`required` needs to be false/unset)
    pub restart: Option<ServiceRestartPolicy>,
    /// Wait time in milliseconds before starting next process
    pub wait: Option<u64>,
    /// (Windows only) The new process has a new console, instead of inheriting its parent's console
    pub create_window: Option<bool>,
    /// If "disabled", skips starting this service (defaults to "enabled")
    /// If "masked", any attempt at starting this service will fail (e.g. manually starting it)
    pub state: Option<ServiceState>,
    /// List of tags that can be used to start multiple related services
    pub tags: Option<Vec<String>>,
    /// List of services that this service depends on
    pub depends: Option<Vec<String>>,
}

/// The mathematical value of a [`Service`].
pub struct ServiceView {
    pub name: Seq<char>,
    pub cmd: CommandView,
    pub pwd: Option<Seq<char>>,
    pub cond: Option<CommandView>,
    pub env: Option<Seq<(Seq<char>, Seq<char>)>>,
    pub required: Option<bool>,
    pub restart: Option<ServiceRestartPolicy>,
    pub wait: Option<u64>,
    pub create_window: Option<bool>,
    pub state: Option<ServiceState>,
    pub tags: Option<Seq<Seq<char>>>,
    pub depends: Option<Seq<Seq<char>>>,
}

impl View for Service {
    type V = ServiceView;

    open spec fn view(&self) -> ServiceView {
        ServiceView {
            name: self.name@,
            cmd: self.cmd@,
            pwd: opt_string_view(self.pwd),
            cond: opt_command_view(self.cond),
            env: opt_pairs_view(self.env),
            required: self.required,
            restart: self.restart,
            wait: self.wait,
            create_window: self.create_window,
            state: self.state,
            tags: opt_strings_view(self.tags),
            depends: opt_strings_view(self.depends),
        }
    }
}

impl Clone for Service {
    fn clone(&self) -> (r: Self)
        ensures
            r@ == self@,
    {
        Service {
            name: self.name.clone(),
            cmd: self.cmd.clone(),
            pwd: copy_opt_string(&self.pwd),
            cond: copy_opt_command(&self.cond),
            env: copy_opt_pairs(&self.env),
            required: self.required,
            restart: self.restart,
            wait: self.wait,
            create_window: self.create_window,
            state: self.state,
            tags: copy_opt_strings(&self.tags),
            depends: copy_opt_strings(&self.depends),
        }
    }
}

/// The names a service depends on, in the order written.
pub open spec fn dependency_names(s: ServiceView) -> Seq<Seq<char>> {
    match s.depends {
        Some(d) => d,
        None => Seq::empty(),
    }
}

/// The state a service is in when none is written: enabled.
pub open spec fn effective_state(s: ServiceView) -> ServiceState {
    match s.state {
        Some(st) => st,
        None => ServiceState::Enabled,
    }
}

/// The whole configuration file.
#[derive(Debug)]
pub struct Config {
    /// Default wait time in milliseconds before starting next process
    pub wait: Option<u64>,
    pub services: Vec<Service>,
    pub hooks: Option<Hooks>,
    /// Environment variables to set for all services
    pub env: Option<Vec<(String, String)>>,
    /// Global variables that can be used in commands
    pub vars: Option<Vec<(String, String)>>,
    /// (Windows only) always kill using `TASKKILL`, defaults to false
    pub use_taskkill: bool,
    /// Disable environment `$VAR`/`${VAR}` interpolation inside of environment variables
    pub disable_env_interpolation: bool,
    /// Disable environment `{{variable}}`/`{{ variable }}` substitution inside of commands
    pub disable_var_substitution: bool,
}

/// The views of a list of services.
pub open spec fn services_view(v: Seq<Service>) -> Seq<ServiceView> {
    v.map_values(|s: Service| s@)
}

/// The words of a command: a string is split as a POSIX shell would; a list is taken as is.
pub open spec fn parsed(c: CommandView) -> Option<Seq<Seq<char>>> {
    match c {
        CommandView::Text(s) => shlex_words(s),
        CommandView::Words(w) => Some(w),
    }
}

/// The words of a command after substituting the global variables: in the string before it
/// is split, in each word of a list.
pub open spec fn parsed_with_subst(c: CommandView, vars: Seq<(Seq<char>, Seq<char>)>) -> Option<Seq<Seq<char>>> {
    match c {
        CommandView::Text(s) => shlex_words(substituted(s, vars)),
        CommandView::Words(w) => Some(w.map_values(|x: Seq<char>| substituted(x, vars))),
    }
}

impl Command {
    /// The words of the command; `None` when its string cannot be split.
    pub fn parse(&self) -> (r: Option<Vec<String>>)
        ensures
            opt_strings_view(r) == parsed(self@),
    {
        match self {
            Command::String(s) => shlex_split(s.as_str()),
            Command::Array(v) => Some(copy_strings(v)),
        }
    }

    /// The words of the command after substituting the global variables `vars`.
    pub fn parse_with_subst(&self, vars: &Vec<(String, String)>) -> (r: Option<Vec<String>>)
        ensures
            opt_strings_view(r) == parsed_with_subst(self@, pairs_view(vars@)),
    {
        match self {
            Command::String(s) => {
                let t = substitute_global_vars(s.as_str(), vars);
                shlex_split(t.as_str())
            },
            Command::Array(v) => {
                let ghost w = strings_view(v@);
                let mut out: Vec<String> = Vec::new();
                let mut i: usize = 0;
                while i < v.len()
                    invariant
                        w == strings_view(v@),
                        i <= v.len(),
                        strings_view(out@) =~= w.subrange(0, i as int).map_values(
                            |x: Seq<char>| substituted(x, pairs_view(vars@)),
                        ),
                    decreases v.len() - i,
                {
                    let t = substitute_global_vars(v[i].as_str(), vars);
                    let ghost before = out@;
                    out.push(t);
                    proof {
                        assert(strings_view(out@) =~= strings_view(before).push(t@));
                        assert(w.subrange(0, i + 1) =~= w.subrange(0, i as int).push(w[i as int]));
                    }
                    i = i + 1;
                }
                assert(w.subrange(0, v.len() as int) =~= w);
                Some(out)
            },
        }
    }
}

/// The global variables, when substitution is on.
pub open spec fn active_vars(config: Config) -> Option<Seq<(Seq<char>, Seq<char>)>> {
    match config.vars {
        Some(v) => if config.disable_var_substitution {
            None
        } else {
            Some(pairs_view(v@))
        },
        None => None,
    }
}

/// The words of a command under the configuration's substitution rules.
pub open spec fn command_words(c: CommandView, config: Config) -> Option<Seq<Seq<char>>> {
    match active_vars(config) {
        Some(vars) => parsed_with_subst(c, vars),
        None => parsed(c),
    }
}

/// A text after substitution of the global variables, when substitution is on.
pub open spec fn text_with_vars(t: Seq<char>, config: Config) -> Seq<char> {
    match active_vars(config) {
        Some(vars) => substituted(t, vars),
        None => t,
    }
}

/// Substitution follows its switch: with `disable_var_substitution` set, or without global
/// variables, a text (a working directory) stays as written and a command is split as written;
/// otherwise both go through the substitution of the global variables.
pub proof fn law_substitution_switch(t: Seq<char>, c: CommandView, config: Config)
    ensures
        (config.disable_var_substitution || config.vars is None) ==> text_with_vars(t, config) == t
            && command_words(c, config) == parsed(c),
        (!config.disable_var_substitution && config.vars is Some) ==> text_with_vars(t, config) == substituted(
            t,
            pairs_view(config.vars->Some_0@),
        ) && command_words(c, config) == parsed_with_subst(c, pairs_view(config.vars->Some_0@)),
{
}

} // verus!

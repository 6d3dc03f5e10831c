//! A service's process as the library sees it: its state, and what starting it takes.

use vstd::prelude::*;
use crate::config::{
    command_words, opt_strings_view, pairs_view, text_with_vars, Command, CommandView, Config,
    Service, ServiceView,
};
use crate::error::ProcessError;
use crate::utils::{expand_env_vars, expanded, substitute_global_vars};

verus! {

/// Where a process is in its life.
#[derive(Debug, Clone, Copy, PartialEq, Eq, Structural, Default)]
pub enum ProcessState {
    Running,
    Exited,
    #[default]
    NotStarted,
}

/// A service together with the state of its process.
#[derive(Debug)]
pub struct Process {
    pub service: Service,
    pub state: ProcessState,
    pub restarted: bool,
    /// The folder that receives the process's output, if one was given.
    pub log_path: Option<String>,
}

/// What it takes to start a service's process.
#[derive(Debug)]
pub struct SpawnPlan {
    /// The program and its arguments.
    pub command: Vec<String>,
    /// The environment variables to set for the process.
    pub env: Vec<(String, String)>,
    /// The working directory, if one is given.
    pub dir: Option<String>,
    /// The folder and the name of the file that receives the output, if a folder is given.
    pub log: Option<(String, String)>,
    /// Whether the process gets a console of its own (where the platform has them).
    pub create_window: bool,
}

/// `log-<name><suffix>`: the name of a log file.
pub open spec fn log_file_name(name: Seq<char>, suffix: Seq<char>) -> Seq<char> {
    "log-"@ + name + suffix
}

/// Builds the name of a log file.
pub fn make_log_file_name(name: &str, suffix: &str) -> (r: String)
    ensures
        r@ == log_file_name(name@, suffix@),
{
    let mut r = "log-".to_owned();
    r.append(name);
    r.append(suffix);
    r
}

/// The words of a command under the configuration's substitution rules, or the error naming
/// `label` when the command cannot be split.
pub fn command_line(cmd: &Command, config: &Config, label: &str) -> (r: Result<Vec<String>, ProcessError>)
    ensures
        match r {
            Ok(words) => command_words(cmd@, *config) == Some(crate::config::strings_view(words@)),
            Err(e) => command_words(cmd@, *config) is None && (e matches ProcessError::CommandParse(n) && n@
                == label@),
        },
{
    let words = match &config.vars {
        Some(vars) => {
            if !config.disable_var_substitution {
                cmd.parse_with_subst(vars)
            } else {
                cmd.parse()
            }
        },
        None => cmd.parse(),
    };
    match words {
        Some(w) => Ok(w),
        None => Err(ProcessError::CommandParse(label.to_owned())),
    }
}

/// The environment variables of a service, each value expanded against `env` unless
/// interpolation is disabled.
pub open spec fn service_env(
    svc: ServiceView,
    config: Config,
    env: Seq<(Seq<char>, Seq<char>)>,
) -> Seq<(Seq<char>, Seq<char>)> {
    match svc.env {
        Some(e) => e.map_values(
            |p: (Seq<char>, Seq<char>)|
                (p.0, if config.disable_env_interpolation { p.1 } else { expanded(p.1, env) }),
        ),
        None => Seq::empty(),
    }
}

/// The value an environment variable of the configuration gets: as written when
/// interpolation is disabled, else with `$VAR` references expanded against `env`.
pub open spec fn env_value(value: Seq<char>, config: Config, env: Seq<(Seq<char>, Seq<char>)>) -> Seq<char> {
    if config.disable_env_interpolation {
        value
    } else {
        expanded(value, env)
    }
}

/// The value a global environment variable is set to, with `env` the environment that
/// `$VAR` references are expanded against.
pub fn global_env_value(value: &str, config: &Config, env: &Vec<(String, String)>) -> (r: String)
    ensures
        r@ == env_value(value@, *config, pairs_view(env@)),
{
    if config.disable_env_interpolation {
        value.to_owned()
    } else {
        expand_env_vars(value, env)
    }
}

impl Process {
    /// The folder that receives the process's output, if one was given.
    pub open spec fn log_dir(&self) -> Option<Seq<char>> {
        match self.log_path {
            Some(p) => Some(p@),
            None => None,
        }
    }

    /// A process for the service that has not run yet.
    pub fn new(service: &Service) -> (p: Self)
        ensures
            p.service@ == service@,
            p.state == ProcessState::NotStarted,
            !p.restarted,
            p.log_dir() is None,
    {
        Process { service: service.clone(), state: ProcessState::NotStarted, restarted: false, log_path: None }
    }

    /// The same process, writing its output into the folder `log_path`.
    pub fn log_path(self, log_path: &str) -> (p: Self)
        ensures
            p.service@ == self.service@,
            p.state == self.state,
            p.restarted == self.restarted,
            p.log_dir() == Some(log_path@),
    {
        Process { log_path: Some(log_path.to_owned()), ..self }
    }

    /// What starting the process takes under `config`, with `env` the environment that
    /// `$VAR` references are expanded against; fails when the command cannot be split.
    pub fn spawn_plan(&self, config: &Config, env: &Vec<(String, String)>) -> (r: Result<SpawnPlan, ProcessError>)
        ensures
            match r {
                Ok(plan) => {
                    &&& command_words(self.service.cmd@, *config) == Some(
                        crate::config::strings_view(plan.command@),
                    )
                    &&& pairs_view(plan.env@) == service_env(self.service@, *config, pairs_view(env@))
                    &&& match self.service.pwd {
                        Some(d) => plan.dir matches Some(pd) && pd@ == text_with_vars(d@, *config),
                        None => plan.dir is None,
                    }
                    &&& match self.log_dir() {
                        Some(d) => plan.log matches Some(l) && l.0@ == d && l.1@ == log_file_name(
                            self.service.name@,
                            ".txt"@,
                        ),
                        None => plan.log is None,
                    }
                    &&& plan.create_window == (self.service.create_window == Some(true))
                },
                Err(e) => command_words(self.service.cmd@, *config) is None && (e matches ProcessError::CommandParse(
                    n,
                ) && n@ == self.service.name@),
            },
    {
        let command = command_line(&self.service.cmd, config, self.service.name.as_str())?;
        let mut plan_env: Vec<(String, String)> = Vec::new();
        let ghost svc = self.service@;
        match &self.service.env {
            None => {
                assert(pairs_view(plan_env@) =~= Seq::<(Seq<char>, Seq<char>)>::empty());
            },
            Some(vars) => {
                let ghost pv = pairs_view(vars@);
                let ghost f = |p: (Seq<char>, Seq<char>)|
                    (p.0, if config.disable_env_interpolation { p.1 } else { expanded(p.1, pairs_view(env@)) });
                let mut i: usize = 0;
                while i < vars.len()
                    invariant
                        pv == pairs_view(vars@),
                        f == (|p: (Seq<char>, Seq<char>)|
                            (p.0, if config.disable_env_interpolation { p.1 } else { expanded(p.1, pairs_view(env@)) })),
                        i <= vars.len(),
                        pairs_view(plan_env@) =~= pv.subrange(0, i as int).map_values(f),
                    decreases vars.len() - i,
                {
                    let name = vars[i].0.clone();
                    let value = if config.disable_env_interpolation {
                        vars[i].1.clone()
                    } else {
                        expand_env_vars(vars[i].1.as_str(), env)
                    };
                    let ghost before = plan_env@;
                    plan_env.push((name, value));
                    proof {
                        assert(pairs_view(plan_env@) =~= pairs_view(before).push((vars@[i as int].0@, value@)));
                        assert(pv.subrange(0, i + 1) =~= pv.subrange(0, i as int).push(pv[i as int]));
                    }
                    i = i + 1;
                }
                assert(pv.subrange(0, vars.len() as int) =~= pv);
            },
        }
        let dir = match &self.service.pwd {
            Some(d) => {
                match &config.vars {
                    Some(vars) => {
                        if !config.disable_var_substitution {
                            Some(substitute_global_vars(d.as_str(), vars))
                        } else {
                            Some(d.clone())
                        }
                    },
                    None => Some(d.clone()),
                }
            },
            None => None,
        };
        let log = match &self.log_path {
            Some(folder) => Some((folder.clone(), make_log_file_name(self.service.name.as_str(), ".txt"))),
            None => None,
        };
        let create_window = match self.service.create_window {
            Some(b) => b,
            None => false,
        };
        Ok(SpawnPlan { command, env: plan_env, dir, log, create_window })
    }

    /// Whether killing the process goes through `TASKKILL` (on Windows): for a process with a
    /// console of its own, or when the configuration asks for it.
    pub fn uses_taskkill(&self, use_taskkill: bool) -> (r: bool)
        ensures
            r == (self.service.create_window == Some(true) || use_taskkill),
    {
        match self.service.create_window {
            Some(true) => true,
            _ => use_taskkill,
        }
    }
}

} // verus!

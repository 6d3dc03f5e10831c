# local-runner

Runs the services of a TOML file one after another, watches them, restarts them by their
restart policy, and takes start/stop/restart/status/shutdown requests through a small request
file next to the configuration.

The decisions are a library verified with Verus (`src/`); the program around it (`app/`)
reads files, spawns and kills processes, and runs the worker thread.

## Layout

- `src/config.rs`: the configuration model, commands and how they are split into words.
- `src/utils.rs`: `{{ variable }}` substitution and `$VAR` expansion.
- `src/resolver.rs`, `src/graph.rs`: dependency resolution, a topological order by Kahn's
  algorithm, and its laws (dependencies first, each service once, list order kept, cycles
  reported exactly).
- `src/process.rs`: what starting a service's process takes.
- `src/worker.rs`: the worker's steps: starting all services, watching the processes and
  the restart policies, starting and stopping a service on request, the status report.
- `src/ipc.rs`: the request file: its name, the request text, and how it is read back.
- `src/outside.rs`: the calls into `indexmap`, `shlex`, `regex` and `std` that the verified
  code makes, with the contracts it relies on.
- `app/`: the command line (`clap`), the TOML file (`serde`, `toml`), logging, Ctrl+C,
  process spawning (`duct`, `nix`) and the worker thread.
- `tests/`: tests of the library.

[package]
name = "local-runner"
version = "0.1.0"
edition = "2021"
publish = false

[dependencies]
indexmap = "2"
regex = "1"
shlex = "1"
clap = { version = "4", features = ["derive"] }
serde = { version = "1", features = ["derive"] }
toml = "*"
duct = "*"
ctrlc = "*"
fern = "*"
log = "*"
colored = "*"
nix = { version = "*", features = ["process"] }
thiserror = "*"

[package]
name = "trace_stats"
version = "0.1.0"
edition = "2021"
publish = false

[dependencies]
clap = { version = "4", features = ["derive"] }
clap-num = "1"
comfy-table = "*"
exitcode = "1"
itertools = "*"
nix = { version = "*", features = ["signal"] }
statrs = "*"
trace-recorder-parser = "*"
tracing = "0.1"
tracing-subscriber = "0.3"

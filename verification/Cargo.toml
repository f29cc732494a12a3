[package]
name = "pacgraph"
version = "0.1.0"
edition = "2021"
publish = false

[dependencies]
petgraph = "0.6"
alpm = "*"
alpm-utils = "*"
anstream = "*"
anstyle = "*"
clap = { version = "*", features = ["derive"] }
tracing = "*"
tracing-subscriber = "*"

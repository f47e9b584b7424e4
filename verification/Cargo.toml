[package]
name = "zapper"
version = "0.1.0"
edition = "2021"
publish = false

[dependencies]
anyhow = "=1.0.104"
clap = { version = "=4.6.7", features = ["derive", "env"] }
dirs = "=6.0.0"
glob = "=0.3.4"
globset = "=0.4.21"
notify = "=8.2.1"
regex-automata = { version = "=0.4.18", default-features = false, features = ["std", "perf", "syntax", "meta", "nfa", "hybrid"] }
rustls = { version = "=0.23.46", default-features = false, features = ["std", "tls12", "logging", "ring"] }
rustls-pemfile = "=2.2.0"
serde = { version = "=1.0.229", features = ["derive"] }
serde_json = "=1.0.154"
walkdir = "=2.5.0"

[package]
name = "sledlite"
version = "0.1.0"
edition = "2021"
publish = false

[dependencies]
bytes = "=1.12.1"
crc32fast = "=1.5.3"
raft = "=0.7.0"
slog = "=2.8.2"
slog-async = "=2.8.0"
slog-term = "=2.9.2"

[dev-dependencies]
serde_json = "=1.0.154"

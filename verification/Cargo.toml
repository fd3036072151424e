[package]
name = "stream_core"
version = "0.1.0"
edition = "2021"
publish = false

[dependencies]
bytes = "=1.12.1"
byteorder = "=1.5.0"
itertools = "=0.12.1"
log = "=0.4.34"
slog = "=2.8.2"
tokio = { version = "=1.54.1", features = ["sync", "time", "macros", "rt"] }
local-sync = "=0.1.1"
nix = { version = "=0.31.3", features = ["fs"] }
tokio-uring = "=0.5.0"
rocksdb = { version = "*", default-features = false }

[package]
name = "substrate"
version = "0.1.0"
edition = "2021"
publish = false

[dependencies]
async-trait = "=0.1.92"
base64-simd = "=0.8.0"
blake3 = { version = "=1.8.7", features = ["pure"] }
dashmap = "=6.2.1"
futures = "=0.3.34"
globset = "=0.4.21"
ignore = "=0.4.34"
libc = "=0.2.191"
nix = { version = "=0.30.1", features = ["fs", "process", "signal", "user"] }
num_cpus = "=1.17.0"
parking_lot = "=0.12.5"
procfs = "=0.17.0"
schemars = "=0.8.22"
serde = { version = "=1.0.229", features = ["derive"] }
serde_json = "=1.0.154"
sha2 = "=0.10.9"
simdutf8 = "=0.1.5"
time = { version = "=0.3.55", features = ["formatting", "parsing"] }
tokio = { version = "=1.54.1", features = ["full"] }
tokio-stream = { version = "=0.1.19", features = ["sync"] }
tokio-util = { version = "=0.7.20", features = ["rt"] }
toml = "=0.8.23"
tracing = "0.1"
uuid = { version = "=1.29.0", features = ["v7"] }

[package]
name = "risingwave_core"
version = "0.1.0"
edition = "2021"
publish = false

[dependencies]
console = "=0.15.11"
opendal = { version = "=0.45.1", default-features = false, features = ["services-webhdfs"] }
anyhow = "=1.0.104"
arc-swap = "=1.9.3"
chrono = "=0.4.45"
clap = { version = "=4.6.7", features = ["derive", "env"] }
either = "=1.19.0"
fixedbitset = "=0.5.7"
futures = "=0.3.34"
hashbrown = "=0.14.5"
itertools = "=0.12.1"
memcomparable = "=0.2.0"
num-integer = "=0.1.47"
num-traits = "=0.2.19"
parking_lot = "=0.12.5"
shell-words = "=1.1.1"
thiserror = "=1.0.69"
thiserror-ext = "0.3"
tokio = { version = "=1.54.1", features = ["macros", "rt", "signal", "sync", "time"] }
tracing = "=0.1.44"

[dev-dependencies]
rust_decimal = "=1.43.0"

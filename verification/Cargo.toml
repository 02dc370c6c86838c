[package]
name = "fio-ext4"
version = "1.5.0"
edition = "2021"
publish = false

[dependencies]
anyhow = "1"
async-compression = { version = "0.4", features = ["tokio", "gzip"] }
clap = { version = "4", features = ["derive"] }
thiserror = "1"
tokio = { version = "1", features = ["fs", "io-std", "io-util", "macros", "rt", "rt-multi-thread"] }
tracing = "0.1"

[dev-dependencies]
async-trait = "0.1"

[package]
name = "serverless_quantum_sim"
version = "0.1.0"
edition = "2021"
publish = false

[dependencies]
anyhow = "=1.0.104"
average = { version = "=0.17.0", default-features = false }
clap = { version = "=4.6.7", features = ["derive"] }
env_logger = "=0.11.11"
log = "=0.4.34"
rand = "=0.8.8"
rand_distr = "=0.4.3"
tokio = { version = "=1.54.1", features = ["rt-multi-thread", "macros", "sync"] }
weighted_rand = "=0.4.2"

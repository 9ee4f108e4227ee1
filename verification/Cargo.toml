[package]
name = "lob_engine"
version = "0.1.0"
edition = "2021"
publish = false

[dependencies]
chrono = "0.4"
log = "0.4"
dotenv = "0.15"
env_logger = "0.11"
ndarray = "0.16"
ndarray-rand = "0.15"
rand = "0.8"
rand_distr = "0.4"
tokio = { version = "1", features = ["rt-multi-thread", "macros", "net", "io-util", "time"] }

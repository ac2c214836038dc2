[package]
name = "alpha-zero"
version = "0.1.0"
edition = "2021"
publish = false

[dependencies]
board-game = "=0.8.2"
chess = "=3.2.0"
crossbeam = "=0.8.5"
decorum = "=0.3.1"
internal-iterator = "=0.2.3"
rand = { version = "=0.8.8", features = ["small_rng"] }
rand_distr = "=0.4.3"
serde = { version = "=1.0.229", features = ["derive"] }
serde_json = "=1.0.154"

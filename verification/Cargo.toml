[package]
name = "gym_planner"
version = "0.1.0"
edition = "2021"
publish = false

[dependencies]
itertools = "=0.15.0"
petgraph = "=0.8.3"
uom = { version = "=0.38.0", features = ["rational64", "u32", "serde"] }
rational_extensions = "=0.4.7"
serde = { version = "=1.0.229", features = ["derive"] }
thiserror = "=2.0.21"
strum = { version = "=0.28.0", features = ["derive"] }
derive_more = { version = "=2.1.1", features = ["from", "display", "into_iterator"] }

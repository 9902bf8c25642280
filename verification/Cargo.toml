[package]
name = "jj_lib"
version = "0.1.0"
edition = "2021"
publish = false

[dependencies]
async-trait = "0.1"
chrono = { version = "0.4", features = ["serde"] }
either = "1"
futures = "0.3"
indexmap = "2"
itertools = "0.14"
pollster = "0.4"
serde = { version = "1", features = ["derive"] }
smallvec = "1"
thiserror = "2"

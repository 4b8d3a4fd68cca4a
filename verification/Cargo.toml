[package]
name = "othismo"
version = "0.1.0"
edition = "2021"
publish = false

[dependencies]
bson = "=2.15.0"
clap = { version = "=4.6.7", features = ["derive"] }
rusqlite = { version = "=0.40.2", features = ["bundled"] }
tokio = { version = "=1.53.2", features = ["rt-multi-thread", "macros", "sync", "time"] }
wasmer = "=4.4.0"

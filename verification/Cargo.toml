[package]
name = "static_graph"
version = "0.2.0"
edition = "2021"
publish = false

[dependencies]
heck = "*"
proc-macro2 = "*"
quote = "*"
arc-swap = "*"
tokio = { version = "*", features = ["macros", "rt", "sync", "time"] }

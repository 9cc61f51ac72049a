[package]
name = "motive"
version = "0.1.0"
edition = "2021"
publish = false

[dependencies]
colored = "2"
regex = "1"
logos = "0.12"
mlua = { version = "0.8", features = ["lua54", "vendored"] }
notify = "4"
tokio = { version = "1", features = ["rt-multi-thread", "macros", "time"] }
clap = "3"

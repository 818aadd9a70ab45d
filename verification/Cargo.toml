[package]
name = "httpie"
version = "0.1.0"
edition = "2021"
publish = false

[dependencies]
deno_core = "*"
serde_json = "*"
uuid = { version = "*", features = ["v4"] }
rand = "*"
reqwest = { version = "*", default-features = false }
clap = "*"
tokio = { version = "*", features = ["macros", "rt-multi-thread"] }

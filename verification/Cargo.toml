[package]
name = "toml_const"
version = "0.1.0"
edition = "2021"
publish = false

[dependencies]
toml = { version = "0.8", features = ["preserve_order"] }
indexmap = "2"
proc-macro2 = "1"
quote = "1"
syn = { version = "2", features = ["full"] }
clap = { version = "4", features = ["derive"] }
log = "0.4"

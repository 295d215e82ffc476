[package]
name = "stacktraceflow"
version = "0.1.0"
edition = "2021"
publish = false

[dependencies]
regex = "1"
serde = { version = "1", features = ["derive"] }
toml = "*"
structopt = "0.3"
cursive = "*"
cursive_tree_view = "*"

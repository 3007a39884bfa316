[package]
name = "include_pruner"
version = "0.1.0"
edition = "2021"
publish = false

[dependencies]
regex = "1"
shlex = "1"
multimap = "*"
clang = { version = "*", features = ["runtime", "clang_10_0"] }
lazy_static = "1"
serde = { version = "1", features = ["derive"] }
serde_json = "1"
serde_yaml = "0.8"
structopt = "0.3"

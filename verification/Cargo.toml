[package]
name = "dotfile-preprocessor"
version = "0.1.0"
edition = "2021"
publish = false

[dependencies]
colored = "1"
failure = "0.1"
lazy_static = "1"
regex = "1"
serde = { version = "1", features = ["derive"] }
structopt = "0.3"
textwrap = { version = "0.11", features = ["term_size"] }
toml = "0.5"

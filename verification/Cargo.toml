[package]
name = "uiua_native"
version = "0.1.0"
edition = "2021"
publish = false

[dependencies]
regex = "1"
serde = { version = "1", features = ["derive"] }
ron = "*"
clap = { version = "4", features = ["derive"] }
thiserror = "*"
uiua = { version = "*", default-features = false }
ariadne = "*"
rand = "*"
itertools = "*"
petgraph = "*"

[package]
name = "jstream"
version = "0.1.0"
edition = "2021"
publish = false

[dependencies]
aws-smithy-json = "*"
aws-smithy-types = "*"
itoa = "*"
ryu = "*"
clap = { version = "*", features = ["derive"] }
nix = { version = "*", features = ["signal"] }

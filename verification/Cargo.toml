[package]
name = "cargo_ebuild"
version = "0.1.0"
edition = "2021"
publish = false

[dependencies]
anyhow = "*"
cargo_metadata = "*"
cargo-lock = "*"
structopt = "*"
time = "*"

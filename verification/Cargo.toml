[package]
name = "symver_check"
version = "0.1.0"
edition = "2021"
publish = false

[dependencies]
anyhow = "*"
clap = { version = "*", features = ["derive"] }
colored = "*"
cpp_demangle = "*"
object = "*"
rustc-demangle = "*"

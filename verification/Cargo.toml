[package]
name = "ccs"
version = "0.1.0"
edition = "2021"
publish = false

[dependencies]
clap = { version = "=4.6.7", features = ["derive"] }
cli-tables = "=0.2.1"
itertools = "=0.15.0"
macroquad = "=0.4.16"

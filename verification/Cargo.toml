[package]
name = "precedence_scheduling"
version = "0.1.0"
edition = "2021"
publish = false

[dependencies]
clap = { version = "4", features = ["derive"] }
color-eyre = "0.6"
itertools = "0.12"
tabled = "0.15"
thiserror = "1"

[package]
name = "rift_wizard_stats"
version = "0.1.0"
edition = "2021"
publish = false

[dependencies]
clap = "2.33"

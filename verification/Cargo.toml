[package]
name = "prime_table"
version = "0.1.0"
edition = "2021"

[dependencies]
clap = "2"

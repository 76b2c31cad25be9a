[package]
name = "spyglass"
version = "0.1.0"
edition = "2021"
publish = false

[dependencies]
ansi_term = "0.11"
clap = "2"
image = "0.19"
rusttype = "0.7"
termsize = "0.1"

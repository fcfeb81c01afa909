[package]
name = "hh"
version = "0.1.0"
edition = "2021"
publish = false

[dependencies]
hashbrown = "*"
clap = "3"
atty = "0.2"

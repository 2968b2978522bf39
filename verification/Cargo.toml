[package]
name = "jvot3"
version = "0.1.0"
edition = "2021"
publish = false

[dependencies]
bimap = "0.6"
itertools = "0.14"
thiserror = "2"
flower-pot = "*"
rustyline = "*"

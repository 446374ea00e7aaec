[package]
name = "bang"
version = "0.1.0"
edition = "2021"
publish = false

[dependencies]
smallvec = "1"
ahash = "0.8"
clap = "3"
rustyline = "9"
ansi_term = "0.12"

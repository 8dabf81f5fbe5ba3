[package]
name = "rsh"
version = "0.1.0"
edition = "2021"
publish = false

[dependencies]
unescape = "=0.1.0"
regex = "=1.13.1"
strip-ansi-escapes = "=0.1.1"
clap = "=2.34.0"
dirs = "=2.0.2"
rustyline = "=6.3.0"
rustyline-derive = "=0.3.1"
quick-error = "=1.2.3"

[package]
name = "sportsat"
version = "0.1.0"
edition = "2021"
publish = false

[dependencies]
roxmltree = "0.20"
structopt = "0.3"
log = "0.4"
stderrlog = "0.6"
dispose = "0.5"
itertools = "0.10"

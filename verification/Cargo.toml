[package]
name = "bril_passes"
version = "0.1.0"
edition = "2021"
publish = false

[dependencies]
argh = "0.1.19"
clap = { version = "4", features = ["derive"] }
derivative = "2.2.0"
graphviz-rust = "0.9.9"
itertools = "0.14.0"
linked-hash-map = "0.5.6"
linked_hash_set = "0.1.6"
log = "0.4"
simple_logger = "5"

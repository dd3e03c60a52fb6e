[package]
name = "match_lowering"
version = "0.1.0"
edition = "2021"
publish = false

[dependencies]
id-arena = "2.2"
itertools = "0.14"
log = "0.4"
num-bigint = "0.4"
num-traits = "0.2"

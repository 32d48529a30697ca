[package]
name = "plingo"
version = "0.1.0"
edition = "2021"
publish = false

[dependencies]
ropey = "1"
indexmap = "2"
smallvec = "1"
fluent-uri = "*"
regex-automata = "0.4"
regex-syntax = "0.8"
log = "0.4"
parking_lot = "0.12"

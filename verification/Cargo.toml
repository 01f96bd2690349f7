[package]
name = "sentiment_core"
version = "0.1.0"
edition = "2021"
publish = false

[dependencies]
rand = "0.9"
regex = "1"
chardetng = "0.1"
encoding_rs = "0.8"
csv = "1"
csv-sniffer = "0.3"
thiserror = "2"
itertools = "0.14"

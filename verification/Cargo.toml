[package]
name = "bson_parse"
version = "0.1.0"
edition = "2021"
publish = false

[dependencies]
crossbeam = "*"
futures = "*"

[dev-dependencies]
bson = "*"

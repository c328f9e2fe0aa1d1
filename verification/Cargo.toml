[package]
name = "actor_test"
version = "0.1.0"
edition = "2021"
publish = false

[dependencies]
log = "0.4"
log4rs = "*"
metrics-runtime = "*"
metrics-exporter-log = "*"

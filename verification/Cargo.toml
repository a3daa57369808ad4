[package]
name = "cope"
version = "0.1.0"
edition = "2021"
publish = false

[dependencies]
rand = "=0.8.8"
rand_distr = "=0.4.3"
byte-unit = "5"
parse_duration = "=2.1.1"

[package]
name = "rmenu"
version = "0.1.0"
edition = "2021"
publish = false

[dependencies]
atty = "0.2"
itertools = "0.10"
orbclient = "0.3"
orbtk = "0.3.1-alpha4"
pico-args = "0.4"
walkdir = "2"

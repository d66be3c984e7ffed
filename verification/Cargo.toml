[package]
name = "eqsat_loop_fuzz"
version = "0.1.0"
edition = "2021"
publish = false

[dependencies]
egg = "0.9"
rand = "0.8"

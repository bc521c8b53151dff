[package]
name = "helr_planner"
version = "0.1.0"
edition = "2021"
publish = false

[dependencies]
itertools = "=0.13.0"
rand = "=0.8.8"
tfhe = { version = "=0.8.7", default-features = false, features = ["shortint"] }

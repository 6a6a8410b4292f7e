[package]
name = "kpsolver"
version = "0.1.0"
edition = "2021"
publish = false

[dependencies]
indexmap = "=2.14.2"
ndarray = { version = "=0.17.2", default-features = false, features = ["std"] }
minilp = "=0.2.2"
good_lp = { version = "=1.15.3", default-features = false, features = ["microlp"] }

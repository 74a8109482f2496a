[package]
name = "feedback_arc_set"
version = "0.1.0"
edition = "2021"
publish = false

[dependencies]
petgraph = "0.6"
rand = "0.8"

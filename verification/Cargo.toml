[package]
name = "p4_gcl"
version = "0.1.0"
edition = "2021"

[dependencies]
either = "1"
petgraph = "0.6"

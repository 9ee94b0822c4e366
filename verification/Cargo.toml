[package]
name = "graph_metrics"
version = "0.1.0"
edition = "2021"
publish = false

[dependencies]
petgraph = "0.6"

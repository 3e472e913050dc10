[package]
name = "graph_executor"
version = "0.1.0"
edition = "2021"
publish = false

[dependencies]
petgraph = "0.6"
futures = "0.3"
log = "0.4"

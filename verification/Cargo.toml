[package]
name = "graph_helpers"
version = "0.1.0"
edition = "2021"
publish = false

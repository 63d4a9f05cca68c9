[package]
name = "apollo_federation"
version = "0.1.0"
edition = "2021"
publish = false

[dependencies]
indexmap = "=2.14.2"
apollo-compiler = "=1.0.0-beta.3"
apollo-at-link = "=0.0.1"

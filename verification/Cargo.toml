[package]
name = "dolfin-analysis"
version = "0.1.0"
edition = "2021"
publish = false

[dependencies]
rowl = "*"
dolfin-diagnostic = "*"

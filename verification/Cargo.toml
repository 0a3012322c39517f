[package]
name = "citreelo"
version = "0.1.0"
edition = "2021"

[dependencies]
biodivine-lib-bdd = "*"
nom = "*"
graphviz_dot_builder = "*"

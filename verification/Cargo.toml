[package]
name = "gauss_elim"
version = "0.1.0"
edition = "2021"
publish = false

[dependencies]
matrix = "0.22"
num = "0.4"

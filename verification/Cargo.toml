[package]
name = "libeir_ir"
version = "0.1.0"
edition = "2021"
publish = false

[dependencies]
cranelift-entity = "=0.123.19"

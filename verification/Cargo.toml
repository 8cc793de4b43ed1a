[package]
name = "typed_kv"
version = "0.1.0"
edition = "2021"
publish = false

[dependencies]
borsh = "1"
thiserror = "1"

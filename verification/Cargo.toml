[package]
name = "wasm_data_extract"
version = "0.1.0"
edition = "2021"
publish = false

[dependencies]
walrus = "*"
clap = "2"

[package]
name = "estree_strings"
version = "0.1.0"
edition = "2021"
publish = false

[dependencies]
oxc_data_structures = { version = "=0.139.0", features = ["code_buffer"] }

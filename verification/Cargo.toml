[package]
name = "compact_space"
version = "0.1.0"
edition = "2021"
publish = false

[dependencies]
ownedbytes = "=0.5.0"
tantivy-bitpacker = "=0.2.0"
tantivy-common = "=0.5.0"

[package]
name = "ts_garbage_collector"
version = "0.1.0"
edition = "2021"
publish = false

[dependencies]
swc_common = "*"
swc_ecma_parser = "*"
swc_ecma_ast = "*"
glob = "*"

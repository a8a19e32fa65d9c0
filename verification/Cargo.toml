[package]
name = "mmap_chunker_core"
version = "0.2.2"
edition = "2021"
publish = false

[dependencies]
datafusion = { version = "*", default-features = false }
datafusion-datasource = { version = "*", default-features = false }
datafusion-datasource-json = "*"

[package]
name = "veryl_css"
version = "0.1.0"
edition = "2021"
publish = false

[dependencies]
anyhow = "1"
veryl-analyzer = "=0.19.1"
veryl-metadata = "=0.19.1"
veryl-parser = "=0.19.1"

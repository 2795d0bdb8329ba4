[package]
name = "bundla"
version = "0.1.0"
edition = "2021"
publish = false

[dependencies]
clap = { version = "4", features = ["derive"] }
lightningcss = "1.0.0-alpha.72"
lol_html = "*"
minify-html = "*"
open = "*"
parcel_sourcemap = "*"
tokio = { version = "1", features = ["full"] }
walkdir = "2"
webadev = "*"

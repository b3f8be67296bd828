[package]
name = "nfdeterminize"
version = "0.1.0"
edition = "2021"
publish = false

[dependencies]
clap = { version = "*", features = ["derive"] }
fasthash = "*"
lz4_flex = "*"
pest = "*"
pest_derive = "*"
uuid = { version = "*", features = ["v4"] }

[package]
name = "hirust_router"
version = "0.1.0"
edition = "2021"
publish = false

[dependencies]
actix-web = { version = "4", default-features = false }
inventory = "0.3"
proc-macro2 = "1"
quote = "1"
syn = { version = "2", features = ["full"] }

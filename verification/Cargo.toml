[package]
name = "icfp_lang"
version = "0.1.0"
edition = "2021"
publish = false

[dependencies]
dotenv = "=0.15.0"
num-bigint = "=0.4.8"
rand = "0.8"
reqwest = "=0.12.28"
tokio = { version = "=1.54.1", features = ["rt-multi-thread", "time"] }

[dev-dependencies]
rust_lisp = "=0.18.0"

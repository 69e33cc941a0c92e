[package]
name = "cosmos_hodler_snapshot"
version = "0.1.0"
edition = "2021"
publish = false

[dependencies]
clap = "=4.6.7"
cosmos-sdk-proto = "=0.27.0"
tokio = { version = "=1.53.2", features = ["macros", "rt-multi-thread", "time"] }
tonic = "=0.13.1"

[package]
name = "traffic_analyzer"
version = "0.1.0"
edition = "2021"
publish = false

[dependencies]
dotenv = "*"
pcap = "*"
tokio = { version = "*", features = ["rt-multi-thread", "macros", "sync"] }

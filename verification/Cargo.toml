[package]
name = "sonar_flows"
version = "0.1.0"
edition = "2021"
publish = false

[dependencies]
packet_parser = "*"
chrono = "0.4"
csv = "1"
calamine = "*"
serde = { version = "1", features = ["derive"] }
serde_json = "1"
clap = { version = "4", features = ["derive"] }
pcap = "*"

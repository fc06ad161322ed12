[package]
name = "csp"
version = "0.1.0"
edition = "2021"
publish = false

[dependencies]
byteorder = "=1.5.0"
chrono = "=0.4.45"
serde = { version = "=1.0.229", features = ["derive"] }
serde_json = "=1.0.154"
serde_yaml = "=0.9.34"
clap = { version = "=4.6.7", features = ["derive"] }
crossbeam = "=0.8.5"
lockfree-object-pool = "=0.1.6"
ndarray = "=0.15.6"
num-complex = "=0.4.6"
num-traits = "=0.2.19"
rayon = "=1.12.0"
socket2 = "=0.5.10"
suppaftp = "=12.2.1"
tokio = { version = "1", features = ["rt-multi-thread", "net"] }
futures = "0.3"
pcap = "*"

[package]
name = "dens"
version = "0.1.0"
edition = "2021"
publish = false

[dependencies]
quinn-udp = "=0.6.3"
rand = "=0.10.3"
rand_distr = "=0.6.0"
tokio = { version = "=1.54.1", features = ["rt", "time", "sync", "macros", "test-util"] }
bytes = "=1.12.1"
ip_network = "=0.4.1"
ip_network_table = "=0.2.0"
minicbor = { version = "=2.3.1", features = ["alloc", "std"] }
thiserror = "=2.0.21"
tracing = "=0.1.44"
futures = "=0.3.34"
futures-io = "=0.3.34"
scoped-tls = "=1.0.1"
getrandom = "=0.4.3"
arrayvec = "=0.7.8"

[dev-dependencies]
sha2 = "*"

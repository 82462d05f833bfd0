[package]
name = "tsgu_rpc"
version = "0.1.0"
edition = "2021"
publish = false

[dependencies]
base64 = "=0.22.1"
getrandom = "=0.3.4"
libc = "0.2"
sha2 = "=0.10.9"
sspi = "=0.23.1"
thiserror = "2"
tokio = { version = "1", features = ["io-util", "macros", "net", "rt", "sync", "time"] }
tracing = "0.1"
x509-cert = "=0.2.5"

[package]
name = "fstdns"
version = "0.1.0"
edition = "2021"
publish = false

[dependencies]
fst = "0.4"
itertools = "*"
libc = "*"
socket2 = "*"
tokio = { version = "1", features = ["rt", "net", "time", "macros"] }

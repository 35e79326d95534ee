[package]
name = "peiosutils"
version = "0.1.0"
edition = "2021"
publish = false

[dependencies]
crc-fast = "=1.10.0"
rand = "=0.9.5"
memchr = "=2.8.3"
clap = "=4.6.7"
serde_json = "=1.0.154"
glob = "0.3"
libc = "=0.2.191"

[package]
name = "recipes"
version = "0.1.0"
edition = "2021"
publish = false

[dependencies]
anyhow = "1"
bytes = "1"
clap = "2.33"
cxx = "1"
env_logger = "0.9"
libc = "0.2"
log = "0.4"
lpfs = "*"
rlimit = "0.5"
stubborn-io = "0.3"
subslice = "0.2"
thiserror = "1"
tokio = { version = "1", features = ["full"] }

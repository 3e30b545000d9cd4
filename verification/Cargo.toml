[package]
name = "tessera-slate"
version = "0.1.0"
edition = "2021"
publish = false

[dependencies]
blake3 = "1"
bytemuck = "1"
libc = "0.2"
shared_memory = "0.12"
thiserror = "2"

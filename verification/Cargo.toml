[package]
name = "seaflowbdd"
version = "0.2.0"
edition = "2021"
publish = false

[dependencies]
hashbrown = "0.15"
rustc-hash = "2"
smallvec = "1"

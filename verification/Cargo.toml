[package]
name = "tzolkin"
version = "0.1.0"
edition = "2021"
publish = false

[dependencies]
rand = "0.8"
rustc-hash = "1"
smallvec = { version = "1", features = ["const_generics"] }
serde_json = "1"

[package]
name = "routemap"
version = "0.1.0"
edition = "2021"
publish = false

[dependencies]
ipnetx = "*"
criterion = { version = "*", default-features = false }
rand = "0.8"
arbitrary = { version = "1", features = ["derive"] }
libfuzzer-sys = "0.4"

[package]
name = "git_pack_decode"
version = "0.1.0"
edition = "2021"
publish = false

[dependencies]
flate2 = { version = "1.0", default-features = false, features = ["rust_backend"] }
smallvec = "1.6"
thiserror = "1.0"
serde = { version = "1.0", features = ["derive"] }

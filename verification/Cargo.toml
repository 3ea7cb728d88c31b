[package]
name = "precompile_utils"
version = "0.1.0"
edition = "2021"
publish = false

[dependencies]
sha3 = "=0.10.9"
sp-core = { version = "=43.0.0", default-features = false }
serde = { version = "=1.0.229", features = ["derive"] }
parity-scale-codec = { version = "=3.7.5", features = ["derive", "max-encoded-len"] }
derive_more = { version = "=2.1.1", features = ["display"] }
num_enum = "=0.7.6"

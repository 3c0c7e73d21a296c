[package]
name = "sse_tdgw_binary"
version = "0.1.0"
edition = "2021"
publish = false

[dependencies]
quick-xml = { version = "*", features = ["serialize"] }
serde = { version = "*", features = ["derive"] }

[dev-dependencies]
byteorder = "*"
hex = "*"

[package]
name = "raxb"
version = "0.1.0"
edition = "2021"
publish = false

[dependencies]
quick-xml = "0.37"
lz4_flex = "0.11"
byteorder = "1"
uuid = { version = "1", features = ["v5"] }
mime = "0.3"
url = "2"
thiserror = "1"
once_cell = "1"
libc = "0.2"
axum = "0.7"
hyper = "1"
async-trait = "0.1"
reqwest = { version = "0.12", default-features = false, features = ["blocking"] }

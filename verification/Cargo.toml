[package]
name = "langelic_epub"
version = "0.1.0"
edition = "2021"
publish = false

[dependencies]
zip = { version = "=8.6.0", default-features = false, features = ["deflate"] }
quick-xml = "=0.39.4"
epub-builder = "=0.8.3"
uuid = { version = "=1.29.0", features = ["v5"] }
thiserror = "=2.0.21"
rustler = "=0.38.0"

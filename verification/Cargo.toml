[package]
name = "svdmini"
version = "0.1.0"
edition = "2021"
publish = false

[dependencies]
quick-xml = "*"
serde = { version = "*", features = ["derive"] }
serde_json = "*"
serde-xml-rs = "*"
once_cell = "*"
regex = "*"
thiserror = "*"

[package]
name = "chinese_dictionary"
version = "2.1.6"
edition = "2021"
publish = false

[dependencies]
bincode = "1"
character_converter = "*"
chinese_detection = "*"
once_cell = "1"
serde = { version = "1", features = ["derive"] }
serde_derive = "1"

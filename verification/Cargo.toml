[package]
name = "partition_store"
version = "0.1.0"
edition = "2021"
publish = false

[dependencies]
bytes = "1"
bytestring = "1"
drain = "0.1"
prost = { version = "0.12", default-features = false, features = ["std"] }
tokio = { version = "1", default-features = false, features = ["macros", "rt"] }

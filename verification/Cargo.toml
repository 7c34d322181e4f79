[package]
name = "ceph_db"
version = "0.1.0"
edition = "2021"
publish = false

[dependencies]
hashbrown = "*"
uuid = { version = "*", features = ["v4"] }
serde = { version = "*", features = ["derive"] }

[package]
name = "group_send_endorsement"
version = "0.1.0"
edition = "2021"
publish = false

[dependencies]
curve25519-dalek = "4.1.3"
partial-default = { version = "0.1.0", features = ["derive"] }
rayon = "1.8.1"
serde = { version = "1", features = ["derive"] }

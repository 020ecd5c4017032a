[package]
name = "arctic"
version = "0.1.0"
edition = "2021"
publish = false

[dependencies]
geo = "0.26"
arrow2 = { version = "0.17", features = ["io_ipc"] }

[dev-dependencies]
geozero = { version = "0.9", features = ["with-wkb", "with-geo"] }

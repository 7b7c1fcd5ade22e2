[package]
name = "dbus_reactor"
version = "0.1.0"
edition = "2021"
publish = false

[dependencies]
regex = "*"
anyhow = "*"
futures-util = "*"
tokio = { version = "*", features = ["macros", "rt-multi-thread"] }
zbus = "*"

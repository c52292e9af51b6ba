[package]
name = "coordkit"
version = "0.1.0"
edition = "2021"
publish = false

[dependencies]
crc32fast = "1"
futures = "0.3"
mio = { version = "1", features = ["os-poll", "net"] }
postcard = { version = "1", features = ["use-std"] }
serde = { version = "1", features = ["derive"] }
tarpc = { version = "*", features = ["full"] }
tokio = { version = "1", features = ["full"] }
tracing = "0.1"
tracing-subscriber = { version = "0.3", features = ["env-filter"] }
windows-sys = { version = "*", features = ["Win32_Foundation", "Win32_Storage_FileSystem"] }

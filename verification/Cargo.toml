[package]
name = "listory"
version = "0.1.0"
edition = "2021"
publish = false

[dependencies]
bytes = "=1.12.1"
prost = "=0.14.4"
anyhow = "=1.0.104"
log = "=0.4.35"
env_logger = "=0.11.11"
serde = { version = "=1.0.229", features = ["derive"] }
tokio = { version = "=1.54.1", features = ["rt-multi-thread", "macros", "sync", "time"] }
windows = { version = "=0.58.0", features = ["Win32_Foundation", "Win32_Storage_FileSystem", "Win32_System_Ioctl", "Win32_System_IO", "Win32_System_Pipes", "Win32_Security"] }

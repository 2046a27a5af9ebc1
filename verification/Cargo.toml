[package]
name = "zip-rs"
version = "0.1.0"
edition = "2021"
publish = false

[dependencies]
time = "0.3"
thiserror = "1"
libc = "0.2"
windows-sys = { version = "0.52", features = ["Win32_Foundation", "Win32_Security", "Win32_Storage_FileSystem"] }

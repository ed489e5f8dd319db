[package]
name = "readpass"
version = "1.0.0"
edition = "2021"
publish = false

[dependencies]
zeroize = "1"
libc = "0.2"
tokio = { version = "1", features = ["fs", "io-util"] }
windows-sys = { version = "0.59", features = ["Win32_Foundation", "Win32_Security", "Win32_Storage_FileSystem", "Win32_System_Console"] }

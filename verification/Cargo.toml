[package]
name = "rustree"
version = "0.1.0"
edition = "2021"
publish = false

[dependencies]
rayon = "1"
thiserror = "2"
clap = { version = "4", features = ["derive"] }
mimalloc = "0.1"
windows = { version = "0.58", features = ["Win32_Foundation", "Win32_Storage_FileSystem", "Win32_System_Console", "Win32_Security"] }

[package]
name = "diskviz"
version = "0.1.0"
edition = "2021"
publish = false

[dependencies]
dashmap = "6"
rayon = "1"
jwalk = "0.8"
libc = "0.2"
serde = { version = "1", features = ["derive"] }
trash = "5"
windows-sys = { version = "0.59", features = ["Win32_Foundation", "Win32_Storage_FileSystem"] }

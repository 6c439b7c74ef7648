[package]
name = "watchman"
version = "0.1.0"
edition = "2021"
publish = false

[dependencies]
dispatch2 = "*"
libc = "*"
objc2-core-foundation = "*"
objc2-core-services = "*"
uds_windows = "*"
windows-sys = { version = "*", features = ["Win32_Foundation", "Win32_Security", "Win32_Storage_FileSystem", "Win32_System_IO"] }

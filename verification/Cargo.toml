[package]
name = "protocol"
version = "0.1.0"
edition = "2021"
publish = false

[dependencies]
anyhow = "1"
frida = "0.17"
serde_json = "1"
windows-sys = { version = "0.59", features = ["Win32_Foundation", "Win32_Security", "Win32_Security_Cryptography", "Win32_Storage_FileSystem", "Win32_System_IO", "Win32_System_JobObjects", "Win32_System_Pipes", "Win32_System_Threading"] }

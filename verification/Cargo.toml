[package]
name = "mixengine"
version = "0.1.0"
edition = "2021"
publish = false

[dependencies]
serde_json = "1"
tracing-subscriber = "0.3"
sysinfo = "0.33"
windows-sys = { version = "0.59", features = ["Win32_Foundation", "Win32_Storage_FileSystem", "Win32_System_Threading", "Win32_System_RestartManager", "Wdk_System_SystemInformation"] }

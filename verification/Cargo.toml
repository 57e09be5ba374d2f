[package]
name = "smb-heat-spike"
version = "0.1.0"
edition = "2021"
publish = false

[dependencies]
chrono = { version = "=0.4.45", default-features = false, features = ["std"] }
chrono-tz = { version = "=0.10.4", default-features = false }
duckdb = "=1.20000.1"
ferrisetw = "=1.2.0"
serde = { version = "=1.0.229", features = ["derive"] }
serde_json = { version = "=1.0.154", features = ["raw_value"] }
tiny_http = "=0.12.0"
ureq = { version = "=3.5.1", default-features = false }
walkdir = "=2.5.0"
windows = { version = "=0.62.2", features = ["Win32_Foundation", "Win32_Storage_FileSystem", "Win32_System_Rpc"] }

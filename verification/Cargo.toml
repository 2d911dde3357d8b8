[package]
name = "finder"
version = "1.0.0"
edition = "2021"
publish = false

[dependencies]
rayon = "=1.12.0"
fuzzy-matcher = "=0.3.7"
zstd = "=0.13.4"
lz4_flex = "=0.11.6"
base64 = "=0.22.1"
bincode = "=1.3.3"
serde = { version = "=1.0.229", features = ["derive"] }
serde_json = "=1.0.154"
crossbeam-channel = "=0.5.17"
parking_lot = "=0.12.5"
ctrlc = "=3.5.2"
image = { version = "=0.25.10", default-features = false, features = ["png", "jpeg"] }
winreg = "=0.52.0"
windows = { version = "=0.60.0", features = ["Win32_Foundation", "Win32_Networking_WinInet", "Win32_Storage_FileSystem", "Win32_System_Com", "Win32_System_IO", "Win32_System_Ioctl", "Win32_System_LibraryLoader", "Win32_Security", "Win32_UI_Shell", "Win32_UI_Shell_Common", "Win32_UI_WindowsAndMessaging"] }

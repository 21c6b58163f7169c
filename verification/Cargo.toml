[package]
name = "wow_serdes"
version = "0.1.0"
edition = "2021"
publish = false

[dependencies]
cbor = "=0.4.1"
rustc-serialize = "=0.3.25"
serde_json = "=1.0.154"
image = { version = "=0.24.9", default-features = false, features = ["bmp", "png"] }
tokio = { version = "=1.54.1", features = ["rt-multi-thread", "macros", "sync", "time"] }
win-screenshot = "=4.0.0"
winapi = { version = "=0.3.9", features = ["winuser", "windef"] }
windows = { version = "=0.48.0", features = ["Win32_Foundation", "Win32_Graphics_Gdi", "Win32_Storage_Xps", "Win32_UI_WindowsAndMessaging"] }

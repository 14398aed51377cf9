[package]
name = "clipboard_history"
version = "0.1.0"
edition = "2021"
publish = false

[dependencies]
arboard = { version = "*", default-features = false }
chrono = { version = "*", default-features = false, features = ["clock", "std"] }
dirs = "*"
eframe = { version = "*", default-features = false, features = ["glow", "x11"] }
fuzzy-matcher = "*"
rdev = "*"
tray-icon = "*"
windows-sys = { version = "*", features = ["Win32_Foundation", "Win32_UI_WindowsAndMessaging"] }

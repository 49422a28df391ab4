[package]
name = "voicetyper"
version = "0.1.0"
edition = "2021"
publish = false

[dependencies]
arboard = { version = "3.6", default-features = false }
cpal = "0.18"
hound = "3.5"
reqwest = { version = "0.12", default-features = false, features = ["blocking", "multipart", "rustls-tls"] }
serde = { version = "1", features = ["derive"] }
tao = { version = "0.37", default-features = false }
toml = "0.9"
tray-icon = { version = "0.26", default-features = false }
windows = { version = "0.62", features = ["Win32_Foundation", "Win32_System_LibraryLoader", "Win32_UI_Input_KeyboardAndMouse", "Win32_UI_WindowsAndMessaging"] }

[package]
name = "diskforge"
version = "0.1.0"
edition = "2021"
publish = false

[dependencies]
blake3 = "=1.8.7"
chrono = { version = "=0.4.45", default-features = false, features = ["clock", "std"] }
dashmap = "=6.2.1"
eframe = { version = "=0.37.0", default-features = false, features = ["glow", "default_fonts", "x11"] }
egui = "=0.37.0"
egui_extras = "=0.37.0"
image = { version = "=0.25.10", default-features = false, features = ["png"] }
log = "=0.4.35"
memchr = "=2.8.3"
regex = "=1.13.1"
windows-sys = { version = "=0.61.2", features = ["Win32_Foundation", "Win32_Security", "Win32_Security_Authorization", "Win32_Storage_FileSystem", "Win32_System_Diagnostics_Debug", "Win32_System_IO", "Win32_System_Ioctl", "Win32_System_Kernel", "Win32_System_Registry", "Win32_System_RestartManager", "Win32_System_Services", "Win32_System_Threading", "Win32_System_Time", "Win32_UI_Shell", "Win32_UI_WindowsAndMessaging"] }

[package]
name = "agent_frow"
version = "0.1.0"
edition = "2021"
publish = false

[dependencies]
serde_json = { version = "=1.0.154", features = ["float_roundtrip"] }
ab_glyph = "=0.2.32"
hidapi = "=2.6.7"
elgato-streamdeck = "=0.14.0"
image = { version = "=0.25.10", default-features = false }
windows = { version = "=0.62.2", features = ["Win32_Foundation", "Win32_System_Diagnostics_ToolHelp", "Win32_System_Com", "Win32_System_Threading", "Win32_UI_Accessibility", "Win32_UI_Input_KeyboardAndMouse", "Win32_UI_WindowsAndMessaging"] }
eframe = { version = "=0.33.3", default-features = false }

[dev-dependencies]
epaint_default_fonts = "=0.33.3"

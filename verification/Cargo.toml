[package]
name = "rofi_unicode"
version = "0.1.0"
edition = "2021"
publish = false

[dependencies]
anyhow = "1"
clap = { version = "4", features = ["derive", "env"] }
dircpy = "0.3"
glib-sys = "*"
rofi-mode = "*"
ron = "0.8"
serde = { version = "1", features = ["derive"] }
ureq = "2"

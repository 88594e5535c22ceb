[package]
name = "cosmic_comp"
version = "0.1.0"
edition = "2021"
publish = false

[dependencies]
anyhow = "1"
calloop = "*"
cgmath = "*"
clap_lex = "*"
libdisplay-info = "*"
ron = "*"
serde = { version = "1", features = ["derive"] }
signal-hook = "*"
smithay = { version = "*", default-features = false, features = ["backend_drm", "backend_egl", "backend_gbm", "renderer_gl", "wayland_frontend", "desktop"] }
thiserror = "*"
tracing = "0.1"
xcursor = "*"

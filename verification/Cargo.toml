[package]
name = "katnip"
version = "0.1.0"
edition = "2021"
publish = false

[dependencies]
xkbcommon = "*"
serde = { version = "*", features = ["derive"] }
toml = "*"
serde_json = "*"
chrono = "*"
fontdue = "*"
rhai = "*"
libloading = "*"
libc = "*"
tracing = "*"
tracing-subscriber = { version = "*", features = ["env-filter"] }
anyhow = "*"
thiserror = "*"
bitflags = "*"
smithay = { version = "*", default-features = false, features = ["wayland_frontend", "desktop", "backend_winit", "backend_drm", "backend_gbm", "backend_libinput", "backend_udev", "backend_session_libseat", "backend_egl", "renderer_gl"] }

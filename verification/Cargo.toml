[package]
name = "oscilloscope"
version = "0.1.0"
edition = "2021"
publish = false

[dependencies]
bytecount = "0.6"
csv = "1.3"
eframe = { version = "0.32", default-features = false, features = ["default_fonts", "glow", "wayland", "x11"] }
egui = { version = "0.32", default-features = false, features = ["default_fonts"] }
egui_plot = { version = "0.33", default-features = false }
fast-float = "0.2"
image = { version = "0.25", default-features = false, features = ["png"] }
md-5 = "0.10"
memmap2 = "0.9"
pollster = "0.4"
rayon = "1"
rfd = { version = "0.15", default-features = false, features = ["xdg-portal", "async-std"] }
rustfft = "6"
serde = { version = "1", features = ["derive"] }
serde_json = "1"
zstd = "0.13"

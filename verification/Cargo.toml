[package]
name = "kingdom"
version = "0.1.0"
edition = "2021"
publish = false

[dependencies]
fastnoise-lite = "1"
glam = "0.29"
image = { version = "0.25", default-features = false, features = ["png"] }
dirs = "5"
log = "0.4"
pollster = "0.4"
egui = { version = "0.31", default-features = false, features = ["default_fonts"] }
egui-winit = { version = "0.31", default-features = false }
egui-wgpu = { version = "0.31", default-features = false }
winit = { version = "0.30", default-features = false, features = ["x11", "rwh_06"] }
wgpu = { version = "24", default-features = false, features = ["wgsl"] }
js-sys = "0.3"
wasm-bindgen = "0.2"
wasm-bindgen-futures = "0.4"
web-sys = { version = "0.3", features = ["Window", "Performance", "Event", "EventTarget", "IdbFactory", "IdbDatabase", "IdbObjectStore", "IdbOpenDbRequest", "IdbRequest", "IdbTransaction", "IdbTransactionMode"] }

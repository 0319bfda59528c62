[package]
name = "room_gen"
version = "0.1.0"
edition = "2021"
publish = false

[dependencies]
macroquad = { version = "*", default-features = false }
priority-queue = "*"
derive-new = "*"
enum_dispatch = "*"
lazy_static = "*"
maplit = "*"

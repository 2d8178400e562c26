[package]
name = "kyute"
version = "0.1.0"
edition = "2021"
publish = false

[dependencies]
slotmap = "1"
unicode-segmentation = "1"
thiserror = "1"
tracing = "0.1"

[dev-dependencies]
rand = "0.8"

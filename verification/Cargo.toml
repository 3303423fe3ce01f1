[package]
name = "floem"
version = "0.1.0"
edition = "2021"
publish = false

[dependencies]
kurbo = "0.9"
taffy = "0.3"
slotmap = "1"

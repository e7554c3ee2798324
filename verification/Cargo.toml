[package]
name = "vidl"
version = "0.1.0"
edition = "2021"

[dependencies]
anyhow = "1"
glow = "0.12"
glutin = "0.29"
imgui = "0.11"
imgui-glow-renderer = "0.11"
imgui-winit-support = "0.11"
winit = "0.27"

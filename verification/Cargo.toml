[package]
name = "scene_deploy"
version = "0.1.0"
edition = "2021"
publish = false

[dependencies]
r3d = "*"
pollster = "*"
thiserror = "*"

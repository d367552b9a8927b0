[package]
name = "path_navigator"
version = "0.1.0"
edition = "2021"
publish = false

[package]
name = "checker_positions"
version = "0.1.0"
edition = "2021"
publish = false

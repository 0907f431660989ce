[package]
name = "traveler"
version = "0.1.0"
edition = "2021"
publish = false

[dependencies]
rand = "=0.10.3"
macroquad = "=0.4.16"

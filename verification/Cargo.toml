[package]
name = "color_profile"
version = "0.1.0"
edition = "2021"
publish = false

[dependencies]
css-style = "=0.14.1"
enum-ordinalize = "=3.1.15"
sycamore = "0.7"

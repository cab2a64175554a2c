[package]
name = "basic_desktop_calculator"
version = "0.1.0"
edition = "2021"
publish = false

[dependencies]
regex = "1"
fltk = "1"
fltk-theme = "*"

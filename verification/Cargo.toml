[package]
name = "domjohnson"
version = "0.1.0"
edition = "2021"
publish = false

[dependencies]
html5ever = "=0.26.0"
selectors = "=0.23.0"
cssparser = "=0.28.1"

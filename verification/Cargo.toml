[package]
name = "extractor"
version = "0.1.0"
edition = "2021"
publish = false

[dependencies]
html5ever = "0.26"
markup5ever_rcdom = "0.2"
url = "2"

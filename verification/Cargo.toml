[package]
name = "prest"
version = "0.1.0"
edition = "2021"
publish = false

[dependencies]
csv = "1"
void = "1"
rayon = "1"
base64 = "0.13"

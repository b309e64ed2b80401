[package]
name = "strolle"
version = "0.1.0"
edition = "2021"
publish = false

[dependencies]
glam = "=0.34.2"
guillotiere = "=0.6.2"
humantime = "=2.4.0"
log = "=0.4.35"
rand = "0.8"

[package]
name = "griddle"
version = "0.1.0"
edition = "2021"
publish = false

[dependencies]
hashbrown = "=0.17.1"
rayon = "=1.12.0"

[package]
name = "cosmogony_builder"
version = "0.1.0"
edition = "2021"
publish = false

[dependencies]
anyhow = "=1.0.104"
cosmogony = "=0.14.5"
geo = "=0.33.1"
log = "=0.4.34"
osmpbfreader = "=0.16.1"
rayon = "=1.12.0"

[package]
name = "renderer"
version = "0.1.0"
edition = "2021"
publish = false

[dependencies]
anyhow = "=1.0.104"
byteorder = "=1.5.0"
indexmap = "=2.14.2"
memmap2 = "=0.9.12"
num_cpus = "=1.17.0"
png = "=0.18.1"
tini = "=1.3.0"
xml-rs = "=1.0.0"

[package]
name = "oci2squashfs"
version = "0.1.0"
edition = "2021"
publish = false

[dependencies]
tar = "0.4"
anyhow = "1"

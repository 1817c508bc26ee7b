[package]
name = "skytemple_rust"
version = "0.1.0"
edition = "2021"
publish = false

[dependencies]
encoding-index-singlebyte = "1.20141219.5"
time = "0.3"

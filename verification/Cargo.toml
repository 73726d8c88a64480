[package]
name = "scanner"
version = "0.1.0"
edition = "2021"
publish = false

[dependencies]
crc = "=3.4.0"
regex = "=1.13.1"
flate2 = "=1.1.10"
zip = "=9.2.2"
atty = "=0.2.14"
text_io = "=0.1.13"
shannon-entropy = "=1.0.0"

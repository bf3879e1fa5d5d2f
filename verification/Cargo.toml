[package]
name = "audiovis"
version = "0.1.0"
edition = "2021"
publish = false

[dependencies]
anyhow = "*"
cpal = "*"
hound = "*"
minifb = "*"
num = "*"
ringbuf = "*"
spectrum-analyzer = "*"

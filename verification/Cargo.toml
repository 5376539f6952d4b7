[package]
name = "image-extras"
version = "0.1.0"
edition = "2021"
publish = false

[dependencies]
bytemuck = "1"
image = { version = "*", default-features = false, features = ["png"] }
ouroboros = "*"
pcx = "*"
wbmp = "*"
zip = { version = "*", default-features = false, features = ["deflate"] }
zune-core = "0.4"
zune-psd = "0.4"

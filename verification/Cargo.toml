[package]
name = "tinify"
version = "0.1.0"
edition = "2021"
publish = false

[dependencies]
image = { version = "*", default-features = false, features = ["png", "jpeg"] }
imghdr = "*"
lodepng = "*"
mozjpeg = { version = "*", default-features = false }
actix-web = { version = "*", default-features = false, features = ["macros"] }
actix-cors = "*"
actix-multipart = "*"
futures-util = "*"
env_logger = "*"

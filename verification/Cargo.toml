[package]
name = "youpipe"
version = "0.4.0"
edition = "2021"
publish = false

[dependencies]
crossfire = "*"
st3 = "*"
concurrent-queue = "*"
parking_lot = "*"
tokio = { version = "*", features = ["rt-multi-thread", "time", "net"] }
compio-runtime = "*"

[package]
name = "mp4_rotator"
version = "0.1.0"
edition = "2021"
publish = false

[dependencies]
arrayvec = "0.5"
chrono = "0.4"
clipboard-win = "5"

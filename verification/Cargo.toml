[package]
name = "tippspiel"
version = "0.1.0"
edition = "2021"
publish = false

[dependencies]
chrono = "0.4"
itertools = "*"
dotenv = "*"
ascii_table = "*"

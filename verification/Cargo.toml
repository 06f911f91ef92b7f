[package]
name = "boggle"
version = "0.1.0"
edition = "2021"
publish = false

[dependencies]
clap = { version = "4", features = ["derive"] }
pad = "0.1"
termsize = "0.1"
text_io = "0.1"
yansi = "0.5"

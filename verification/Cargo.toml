[package]
name = "truce_sample_loader"
version = "0.1.0"
edition = "2021"
publish = false

[dependencies]
hound = "3.5"
symphonia = { version = "0.5", features = ["aac", "aiff", "isomp4", "mp3"] }
thiserror = "2"

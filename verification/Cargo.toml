[package]
name = "unltd_inference"
version = "0.1.0"
edition = "2021"
publish = false

[dependencies]
bytemuck = "1"
clap = { version = "4", features = ["derive"] }
memmap2 = "0.9"
rayon = "1"
regex = "1"
serde_json = "1"
thiserror = "2"

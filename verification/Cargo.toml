[package]
name = "quadim"
version = "0.1.0"
edition = "2021"
publish = false

[dependencies]
clap = { version = "4", features = ["derive"] }
csscolorparser = "*"
image = "0.24"
num_cpus = "*"
object-pool = "*"
threadpool = "*"

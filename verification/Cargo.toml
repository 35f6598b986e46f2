[package]
name = "spark_lib"
version = "0.1.0"
edition = "2021"
publish = false

[dependencies]
ahash = "*"
anyhow = "*"
glam = "*"
half = "*"
miniz_oxide = "*"
ordered-float = "*"
smallvec = "*"

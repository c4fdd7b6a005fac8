[package]
name = "tpt-mbd"
version = "0.1.0"
edition = "2021"
publish = false

[dependencies]
num-traits = "0.2"
tpt-math-geometry = "*"
tpt-math-linalg-dense = "*"
tpt-math-linalg-fixed = "*"
tpt-math-numeric = "*"
tpt-math-spatial = "*"
tpt-fem-mesh = "*"

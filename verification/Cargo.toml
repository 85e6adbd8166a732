[package]
name = "bayesomatic"
version = "0.1.0"
edition = "2021"
publish = false

[dependencies]
loopybayesnet = "=0.1.0"
ndarray = "=0.12.1"

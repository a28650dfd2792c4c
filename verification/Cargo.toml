[package]
name = "ad_ess"
version = "0.1.0"
edition = "2021"
publish = false

[dependencies]
rug = { version = "=1.19.2", default-features = false, features = ["integer", "rational", "rand"] }
gmp-mpfr-sys = { version = "1.5", default-features = false, features = ["use-system-libs"] }
pyo3 = { version = "=0.20.3" }
numpy = { version = "=0.20.0" }

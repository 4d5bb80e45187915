[package]
name = "pseudoprimes"
version = "0.1.0"
edition = "2021"
publish = false

[dependencies]
gmp-mpfr-sys = { version = "~1.4", default-features = false, features = ["use-system-libs"] }
modinverse = "=0.2.0"
rand = "=0.10.3"
rug = { version = "=1.16.0", default-features = false, features = ["integer"] }

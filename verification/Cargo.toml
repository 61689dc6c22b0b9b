[package]
name = "prime_finder"
version = "0.1.0"
edition = "2021"
publish = false

[dependencies]
rug = { version = "=1.16.0", default-features = false, features = ["integer"] }
gmp-mpfr-sys = { version = "~1.4", default-features = false, features = ["use-system-libs"] }
aho-corasick = "=0.7.20"
cdc = "=0.1.1"
clap = "=4.6.7"

[package]
name = "delivery"
version = "0.1.0"
edition = "2021"
publish = false

[dependencies]
base64 = "=0.13.1"
meowhash = "=0.3.0"
seahash = "=4.1.0"
digest = "=0.9.0"
async-std = "=1.13.2"
futures = "=0.3.34"
structopt = "=0.3.26"

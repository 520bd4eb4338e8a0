[package]
name = "bootc_core"
version = "0.1.0"
edition = "2021"
publish = false

[dependencies]
anyhow = "=1.0.104"
cap-std-ext = { version = "=4.0.7", features = ["fs_utf8"] }
composefs = "=0.9.4"
fn-error-context = "=0.2.1"
hex = "=0.4.3"
openssl = "=0.10.81"
rustix = { version = "=1.1.5", features = ["fs"] }
tracing = "=0.1.44"

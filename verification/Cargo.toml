[package]
name = "signals"
version = "0.1.0"
edition = "2021"
publish = false

[dependencies]
dioxus-core = "0.5"
dioxus-lib = { version = "0.5", default-features = false }
jni = "0.21"
libc = "0.2"

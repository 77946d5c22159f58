[package]
name = "motion_core"
version = "0.1.0"
edition = "2021"
publish = false

[dependencies]
const_soft_float = "0.1"
wasm-bindgen = "0.2"

[package]
name = "uniworld"
version = "0.1.0"
edition = "2021"
publish = false

[dependencies]
icu_properties = "=2.1.2"
icu_casemap = "=2.1.1"
icu_locale_core = "=2.1.1"
unicode-normalization = "=0.1.25"
wasm-bindgen = "=0.2.130"
pyo3 = "=0.30.1"

[package]
name = "exclusion_proof"
version = "0.1.0"
edition = "2021"
publish = false

[dependencies]
ff = "=0.13.1"
halo2curves = "=0.9.0"
nova-snark = "=0.76.0"
serde_json = "=1.0.154"
serde-wasm-bindgen = "=0.6.5"
wasm-bindgen = "=0.2.130"
wasm-bindgen-futures = "=0.4.80"
js-sys = "=0.3.107"
web-sys = { version = "=0.3.107", features = ["console"] }
wat = "=1.263.0"
wee_alloc = "=0.4.5"

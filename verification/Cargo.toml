[package]
name = "tpt_physics"
version = "0.1.0"
edition = "2021"
publish = false

[dependencies]
serde = { version = "=1.0.229", features = ["derive"] }
serde_json = "=1.0.154"
bincode = "=1.3.3"
rayon = "=1.12.0"
wasm-bindgen = "=0.2.130"
js-sys = "=0.3.107"
console_error_panic_hook = "=0.1.7"
pyo3 = "=0.22.6"
wgpu = "0.20"
pollster = "0.3"
tpt-fem-sparse = "=0.1.1"
tpt-fem-elasticity = "=0.2.0"
tpt-fem-mesh-gen = "=0.1.1"
tpt-fem-assembly = "=0.2.0"
tpt-fem-eigen = "=0.2.0"
tpt-fem-solve = "=0.1.0"
tpt-fem-thermal = "=0.2.0"
tpt-math-autodiff = "=0.1.1"
tpt-math-linalg-dense = "=0.2.0"

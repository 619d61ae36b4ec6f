[package]
name = "mpz"
version = "0.1.0"
edition = "2021"
publish = false

[dependencies]
async-trait = "=0.1.92"
blake3 = "=1.8.7"
curve25519-dalek = { version = "=5.0.0", features = ["rand_core"] }
futures = "=0.3.34"
hybrid-array = "=0.4.15"
js-sys = "=0.3.107"
rand = "=0.10.3"
rand_chacha = "=0.10.0"
rand_core = "=0.10.1"
rangeset = "=0.4.1"
rayon = "=1.12.0"
serde = { version = "=1.0.229", features = ["derive"] }
tokio = { version = "=1.54.1", features = ["sync"] }
wasm-bindgen = "=0.2.130"
wasm-bindgen-futures = "=0.4.80"
web-spawn = "*"
web-sys = { version = "=0.3.107", features = ["Window", "Performance", "console"] }

[dev-dependencies]
aes = "=0.9.4"
sha2 = "=0.11.1"

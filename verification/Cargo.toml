[package]
name = "simd_brotli"
version = "0.1.0"
edition = "2021"
publish = false

[dependencies]
alloc-no-stdlib = "=2.0.4"
alloc-stdlib = "=0.2.4"
brotli-decompressor = "=5.0.3"
fearless_simd = { version = "=1.2.0", features = ["force_support_fallback"] }

[package]
name = "tremor_core"
version = "0.1.0"
edition = "2021"
publish = false

[dependencies]
async-channel = "1"
prost = "0.9"
prost-types = "0.9"
googapis = { version = "0.6", default-features = false, features = ["google-cloud-bigquery-storage-v1"] }
tonic = { version = "0.6", features = ["tls"] }
futures = "0.3"
async-std = "1"
async-trait = "0.1"
simd-json = "0.13"
crossbeam = "0.8"

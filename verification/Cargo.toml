[package]
name = "wf_fissure_price"
version = "0.1.0"
edition = "2021"
publish = false

[dependencies]
levenshtein = "=1.0.5"
image = { version = "=0.25.10", default-features = false, features = ["png"] }
serde_json = "=1.0.151"

[package]
name = "elevation_api"
version = "0.1.0"
edition = "2021"
publish = false

[dependencies]
ndarray = "=0.15.6"
serde = { version = "=1.0.229", features = ["derive"] }
serde_json = "=1.0.151"
glob = "=0.3.4"
netcdf = "=0.12.1"

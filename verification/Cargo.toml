[package]
name = "timeseries"
version = "0.1.0"
edition = "2021"
publish = false

[dependencies]
seahash = "=4.1.0"
rusqlite = "=0.40.2"
redis = "=1.7.1"
postgres = "=0.19.14"
csv = "=1.4.0"
chrono = "=0.4.45"
ndarray = "=0.17.2"
rayon = "=1.12.0"

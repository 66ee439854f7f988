[package]
name = "matrix_telemetry"
version = "0.1.0"
edition = "2021"
publish = false

[dependencies]
rand = "0.8"
rayon = "1"
ratatui = "0.29"
crossterm = "0.28"
sysinfo = "0.32"

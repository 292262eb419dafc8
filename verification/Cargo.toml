[package]
name = "prompt_autocomplete"
version = "0.1.0"
edition = "2021"
publish = false

[dependencies]
color-eyre = "0.6"
crossterm = "0.28"
neo_frizbee = "=0.10.4"
ratatui = { version = "0.29", features = ["unstable-widget-ref"] }
tracing = "0.1"
unicode-width = "=0.2.0"

[package]
name = "hx711"
version = "0.1.0"
edition = "2021"
publish = false

[dependencies]
critical-section = "1.1"
esp-backtrace = { version = "0.13.0", features = ["esp32", "panic-handler", "exception-handler", "println"] }
esp-println = { version = "0.10.0", features = ["esp32"] }
esp32-hal = "0.12.0"

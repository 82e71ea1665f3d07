[package]
name = "rl_hours_tracker"
version = "0.1.0"
edition = "2021"
publish = false

[dependencies]
chrono = "0.4"
build_html = "*"
colour = "*"
log = "0.4"
log4rs = "1"
stopwatch = "*"
sysinfo = "*"
tokio = { version = "1", features = ["rt-multi-thread"] }
reqwest = { version = "0.12", default-features = false, features = ["rustls-tls"] }
bytes = "1"
directories = "*"
zip = "*"
webbrowser = "*"
ctrlc = "*"

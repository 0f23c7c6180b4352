[package]
name = "healthtracker"
version = "0.1.0"
edition = "2021"
publish = false

[dependencies]
chrono = "*"
clap = "*"
prettytable-rs = "*"
xdg = "*"

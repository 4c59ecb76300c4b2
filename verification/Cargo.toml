[package]
name = "ip_traffic_monitor"
version = "0.1.0"
edition = "2021"
publish = false

[dependencies]
actix-web = "*"
chrono = "*"
clap = { version = "*", features = ["derive"] }
ctrlc = "*"
libc = "*"
maxminddb = "*"
memmap2 = "*"
procfs = "*"
tokio = { version = "*", features = ["macros", "rt-multi-thread"] }

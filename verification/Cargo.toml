[package]
name = "interceptor"
version = "0.1.0"
edition = "2021"
publish = false

[dependencies]
regex = "*"
simple-dns = "*"
pcap = "*"
toml = "*"
dns-lookup = "*"
slog = "*"
slog-async = "*"
slog-scope = "*"
slog-term = "*"

[package]
name = "restaurant"
version = "0.1.0"
edition = "2021"
publish = false

[dependencies]
rand = "=0.7.3"
uuid = { version = "=0.8.2", features = ["v4", "serde"] }
serde = "=1.0.229"
serde_derive = "=1.0.229"
env_logger = "=0.6.2"
actix-web = { version = "=1.0.9", default-features = false }
# Not used by the code: actix-http 0.2 (under actix-web 1.0) subtracts a
# `chrono::Duration` from a `time::Tm`, which compiles only while chrono
# re-exports time 0.1's `Duration`; these two pins keep it that way.
time = "=0.1.44"
chrono = "=0.4.19"

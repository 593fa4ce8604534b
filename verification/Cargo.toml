[package]
name = "pg_tps_optimizer"
version = "0.1.0"
edition = "2021"
publish = false

[dependencies]
postgres = { version = "=0.19.14", features = ["with-chrono-0_4"] }
openssl = "=0.10.81"
postgres-openssl = "=0.5.3"
users = "=0.11.0"
shellexpand = "=3.1.2"
structopt = "=0.3.26"
chrono = "=0.4.45"
duration-string = "=0.5.3"

[package]
name = "simple_ldap"
version = "0.1.0"
edition = "2021"
publish = false

[dependencies]
ldap3 = { version = "=0.12.1", default-features = false, features = ["sync"] }
url = "=2.5.8"
serde = "=1.0.229"
serde-value = "=0.7.0"
futures = "=0.3.34"
async-trait = "=0.1.92"
deadpool = "=0.13.1"

[package]
name = "condor_credmon"
version = "0.1.0"
edition = "2021"
publish = false

[dependencies]
log = "=0.4.34"
log4rs = "=1.4.0"
nix = { version = "=0.31.3", features = ["user"] }
oauth2 = "=5.0.0"
openidconnect = { version = "=4.0.1", features = ["reqwest-blocking"] }
reqwest = { version = "=0.12.28", default-features = false, features = ["blocking"] }
serde = { version = "=1.0.229", features = ["derive"] }
serde_json = "=1.0.151"
signal-hook = "=0.4.5"
stderrlog = "=0.6.0"

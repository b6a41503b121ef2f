[package]
name = "craes"
version = "0.1.0"
edition = "2021"
publish = false

[dependencies]
structopt = "=0.3.26"
futures = "=0.1.31"
tokio = "=0.1.22"
tokio-threadpool = "=0.1.18"
tokio-postgres = "=0.4.0-rc.2"
# tokio-postgres 0.4.0-rc.2 builds only against postgres-protocol 0.4.0
# (0.4.1 moved to fallible-iterator 0.2, which rc.2 does not compile against).
postgres-protocol = "=0.4.0"
tracing = "=0.1.44"
tracing-futures = { version = "=0.2.5", features = ["futures-01"] }
capnp = "=0.10.3"
tungstenite = "=0.9.2"
diesel = "=1.4.8"

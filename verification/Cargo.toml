[package]
name = "rebind_control"
version = "0.1.0"
edition = "2021"
publish = false

[dependencies]
dbus = { version = "=0.9.12", features = ["vendored"] }
dbus-crossroads = "=0.5.3"
dbus-tokio = "=0.7.6"
futures = "=0.3.34"
gstreamer = "=0.23.7"
gstreamer-base = "=0.23.6"
tokio = { version = "=1.54.1", features = ["rt", "time"] }
tracing = "=0.1.44"
tracing-log = "=0.2.0"
tracing-subscriber = { version = "=0.3.23", features = ["env-filter", "fmt"] }

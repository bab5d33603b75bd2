[package]
name = "mqtt_bridge"
version = "0.1.0"
edition = "2021"
publish = false

[dependencies]
chrono = "=0.4.45"
uuid = { version = "=1.27.0", features = ["v4"] }
tokio = { version = "=1.53.2", features = ["macros", "rt-multi-thread", "signal"] }
warp = { version = "=0.4.3", features = ["server", "websocket"] }
rumqttc = "=0.25.1"
futures-channel = "=0.3.34"
futures-util = "=0.3.34"

[package]
name = "chitko_sip"
version = "0.1.0"
edition = "2021"
publish = false

[dependencies]
argparse = "0.2"
log = "0.4"
log4rs = { version = "1", default-features = false, features = ["console_appender", "file_appender", "pattern_encoder"] }
tokio = { version = "1", features = ["io-util", "macros", "net", "rt-multi-thread", "sync", "time", "signal"] }

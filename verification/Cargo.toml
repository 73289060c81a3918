[package]
name = "opentelemetry-instrumentation-rdkafka"
version = "0.1.0"
edition = "2021"
publish = false

[dependencies]
opentelemetry = "0.31"
rdkafka = "0.39"

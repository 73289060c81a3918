//! OpenTelemetry instrumentation for rdkafka: the spans that producing and
//! consuming Kafka messages record, and the propagation of trace context
//! through Kafka message headers in the W3C TraceContext format.
pub mod consumer;
pub mod producer;
pub mod propagation;
pub mod semantic;

# opentelemetry-instrumentation-rdkafka

OpenTelemetry instrumentation for rust-rdkafka, written in Verus.

- `src/` is the verified library:
  - `semantic.rs`: the Messaging Semantic Convention attribute names, the
    attribute model, the base attributes of every messaging span, span names
    and span plans.
  - `propagation.rs`: `HeaderInjector`, which merges a record's own headers
    with the injected trace-context fields into rdkafka `OwnedHeaders`, and
    `HeaderExtractor`, which looks fields up in the headers of a received
    message; the proof that a field injected under a key is what a lookup of
    that key returns.
  - `producer.rs`: the publish span of a record and what it records once the
    broker has answered.
  - `consumer.rs`: the receive span of a message.
- `app/` holds `TracingProducer`, `TracingConsumer` and
  `extract_context_from_message`: the Kafka I/O and the calls into the global
  OpenTelemetry tracer and propagator, driven by the library's plans.
- `tests/` runs the library against the real rdkafka headers.

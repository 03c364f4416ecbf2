# metrics64

Counters, gauges and log-exponential histograms for a process, kept in a
registry that identifies each metric by its name and its set of tags, and
exported periodically over OpenTelemetry.

- `src/` is the library, verified with Verus:
  - `metrics/histogram.rs`: the bucket arrays of the histogram (recording a
    bin, merging bins when the scale is lowered), the scale change a new bin
    asks for, the histogram's counters and the integer part of mapping a
    value to its bin;
  - `tags.rs`: the order of tags and the normal form of a tag list;
  - `registry.rs`: the identity of a metric (a hash of its name and normal
    tags) and the registry;
  - `metrics/`: counters, gauges, metric definitions and tag checks;
  - `collector.rs`: the resource attributes that go with every export;
  - `utils.rs`: a pass-through hasher for keys that are hashes already.
- `app/` is the process side: the process-wide registry, the histogram's
  floating-point statistics and bin logarithm, the export over gRPC and the
  tokio runtime metrics.
- `tests/` runs the library on concrete values.

//! Metric value core of a metrics-aggregation pipeline: the canonical
//! in-memory representation of a single metric sample, the rules for merging
//! repeated observations of the same metric into one aggregate, and a
//! bit-exact binary encoding/decoding of aggregated metrics.

pub mod metric;
pub mod scalar;
pub mod typename;
pub mod wire;

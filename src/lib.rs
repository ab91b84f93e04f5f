//! Per-key stateful operators of a streaming dataflow: a size- and
//! timeout-bounded batch accumulator and an event-time tumbling windower.
pub mod batch;
pub mod time;
pub mod window;

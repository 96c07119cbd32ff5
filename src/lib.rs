use vstd::prelude::*;

/// Pane, slice and window arithmetic, and the windows that hold an event.
pub mod window;
/// The slide cursor and the set of windows still to close.
pub mod schedule;
/// Ranking of keys: ties share the lowest rank.
pub mod rank;
/// The state primitives (counter, value, map) and what their operations do.
pub mod primitives;
/// Process-local state, one container per primitive.
pub mod in_memory_native;
/// Global windows that count the events they cover.
pub mod global_count;
/// Global windows that rank the keys of the events they cover.
pub mod global_rank;
/// Windows kept per key, with counts.
pub mod keyed_count;
/// Windows kept per key, with ranks.
pub mod keyed_rank;
/// Dataflow locations: operator ports.
pub mod progress;
/// Byte encodings of keys and values, and the merge functions over them.
pub mod encoding;
/// Process-local counters kept under names.
pub mod in_memory;
/// Namespaced handles over a shared backend.
pub mod handle;
/// Conversion between epochs and event times.
pub mod nexmark;
/// Upkeep of an engine whose operations complete asynchronously.
pub mod maintenance;

verus! {

} // verus!

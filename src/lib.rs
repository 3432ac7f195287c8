//! Verified core of a distributed geospatial raster store: on-disk sidecar
//! records, the binary tile transfer framing, geocode-keyed placement on a
//! consistent-hashing ring, task bookkeeping, split/load routing decisions and
//! cluster-wide query aggregation.
pub mod codec;
pub mod geocode;
pub mod sidecar;
pub mod dht;
pub mod transfer;
pub mod store;
pub mod pipeline;
pub mod task;
pub mod aggregate;
pub mod load;
pub mod broadcast;

//! Prometheus remote storage protocol: the message model, the wire codec
//! (protobuf encoding framed by raw snappy blocks), and the storage contract
//! with its read fan-out.

pub mod codec;
pub mod mock;
pub mod storage;
pub mod types;
pub mod wire;

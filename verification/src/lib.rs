//! The forwarding core of a local RTP track: one incoming media source, any
//! number of outgoing bindings, a cache for retransmission, and the statistics
//! that drive the bitrate asked of the publisher.
//!
//! Everything here is sequential and free of I/O. Callers that share a track
//! between tasks put it behind a lock, and perform the reads, sends and sleeps
//! that the library decides on.
pub mod binding;
pub mod bindings;
pub mod bitrate_control;
pub mod bitrate_state;
pub mod clock;
pub mod codec;
pub mod forwarding;
pub mod header_extension;
pub mod loss_stats;
pub mod octets;
pub mod packet;
pub mod packet_cache;
pub mod sequence_tag;
pub mod track_bindings;
pub mod track_local_static_rtp;
pub mod track_state;
pub mod write_plan;

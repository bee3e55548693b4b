//! The tables a broadcast carries about itself, and how to keep them.
//!
//! Around its pictures and sound a broadcaster sends a description of what is
//! being sent: which service this is, what each PID contains, which programme
//! is on and which follows, and what time it is. A multiplexer writes none of
//! it back, so the tables are put back afterwards by one pass over the
//! finished file, trimmed to the streams that file turned out to hold.
pub mod about;
pub mod graft;
pub mod loops;
pub mod packet;
pub mod paced;
pub mod read;
pub mod sections;
pub mod told;

pub use graft::{graft, output_layout, packetize, peak_rate, Stats};
pub use loops::{
    component_reference, descriptor, finish_section, keep_carried, keep_descriptors, Components,
};
pub use packet::{
    crc32, find_sync, framing, payload_start, pcr_of, pid_of, SectionReader, M2TS_PACKET, PACKET,
};
pub use read::{
    read_service, snapshot_at, ElementaryStream, Service, SiError, Snapshot, TABLE_EIT_PF_ACTUAL,
    TABLE_SDT_ACTUAL, TABLE_SIT,
};
pub use sections::{
    advance_time, build_pmt, build_sit, network_descriptor, partial_stream_descriptor,
    partial_time_descriptor, present_event, prune_events, service_descriptor, Graft, GraftRange,
    GraftStream, Present, Tables, SECTION_MAX,
};

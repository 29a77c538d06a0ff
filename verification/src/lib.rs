//! Batch conversion of audio folders to WAV.
pub mod text;
pub mod natural;
pub mod path;
pub mod disk;
pub mod journal;
pub mod transaction;
pub mod reversal;
pub mod aftermath;
pub mod delivery;
pub mod fulfilment;
pub mod naming;
pub mod sorting;
pub mod output_order;
pub mod playback;
pub mod convert;
pub mod conversion;
pub mod notification;
pub mod control;
pub mod plan;
pub mod worker;
pub mod tally;
pub mod promises;
pub mod announcements;
pub mod window;
pub mod meanings;

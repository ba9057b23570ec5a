//! Editing logic of a video timeline: ripple edits, grouping, clipboard
//! layout, transcription chunking and drag bookkeeping.

pub mod model;
pub mod collections;
pub mod ripple;
pub mod presentation;
pub mod tracks;
pub mod sorting;
pub mod transcription;
pub mod grouping;
pub mod clipboard;
pub mod folded_sequence;
pub mod selection;
pub mod media_import;
pub mod natural_end;
pub mod ripple_limit;
pub mod ripple_edit;
pub mod deletion;
pub mod folding;
pub mod gaps;
pub mod drag_group;

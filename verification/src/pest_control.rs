//! Pest control: the framing of its packets.

pub mod codec;

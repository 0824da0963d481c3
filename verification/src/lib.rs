//! A small text modem for a one-way radio link: on-off keying of a tone,
//! Manchester line coding and a framed byte format with a checksum.
//!
//! A payload is framed ([`frame`]), line-coded ([`manchester`]) and keyed
//! ([`keying`]); the receiver slices samples into chips and assembles frames
//! ([`decoder`], with its model in [`receiver`]). What holds of the whole chain
//! is stated chip by chip in [`acquisition`], [`link`] and [`reception`], and sample
//! by sample in [`station`], [`loopback`] and [`recovery`].

pub mod acquisition;
pub mod bits;
pub mod boxcar;
pub mod counting;
pub mod crc;
pub mod decoder;
pub mod frame;
pub mod keying;
pub mod link;
pub mod loopback;
pub mod manchester;
pub mod receiver;
pub mod reception;
pub mod recovery;
pub mod rng;
pub mod station;

pub use crate::bits::{bits_to_bytes, bytes_to_bits};
pub use crate::boxcar::Boxcar;
pub use crate::crc::crc16;
pub use crate::decoder::{ClockStep, Decoded, Decoder, Reading};
pub use crate::frame::{
    build_frame_bytes, frame_to_chips, sync_chip_pattern, MAX_PAYLOAD, PREAMBLE, SYNC,
};
pub use crate::keying::{burst_chips, modulate};
pub use crate::manchester::{manchester_decode, manchester_encode};
pub use crate::rng::Rng;

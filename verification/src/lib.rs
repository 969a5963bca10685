//! A verified 15-bit CRC engine in the CAN-bus configuration
//! (polynomial 0x4599, zero initial value, no final XOR, no reflection).
//!
//! The crate holds two computations of the same checksum: a table-driven
//! engine ([`crc::CRC`]) and a bit-by-bit reference ([`crc::CRC::calculate_old`]).
//! Both carry contracts tied to one bit-level model, so their agreement on
//! every byte sequence is a verified theorem, not a test observation.

pub mod bits;
pub mod crc;

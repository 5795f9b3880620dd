//! A lossless codec that packs a list of small positive integers into a
//! compact printable string and restores the list from it.
//!
//! The list is a string of numbers from 1 to 300 with commas between them.
//! `bit_representer` groups equal entries into runs and writes each run in
//! fields of binary digits that tell their own width and kind;
//! `base64_encoder_decoder` writes every six of those digits as one printable
//! character. `densifyer` joins the two stages, and `roundtrip` proves that
//! what was packed is unpacked to the same values. `binary` and `text` hold
//! what the stages share: binary digit strings, and lists of decimal numbers.

pub mod base64_encoder_decoder;
pub mod binary;
pub mod bit_representer;
pub mod densifyer;
pub mod roundtrip;
pub mod text;

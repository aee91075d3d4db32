//! The formats in which a board is written down and read back.

use vstd::prelude::*;

pub mod ascii;
pub mod base32hex;
pub mod base64;
pub mod llama_url;
pub mod ptt_url;
pub mod text;
pub mod web;

verus! {

/// The formats that the game can write, and mostly read.
#[derive(Clone, Copy, Debug, PartialEq, Eq, Structural)]
pub enum EncodeType {
    Ascii,
    AsciiWithNumbers,
    Base64,
    PttUrl,
    LlamaUrl,
}

impl EncodeType {
    /// The formats that a board can be written in.
    pub const ENCODE_TYPES: [EncodeType; 5] = [
        EncodeType::Ascii,
        EncodeType::AsciiWithNumbers,
        EncodeType::Base64,
        EncodeType::PttUrl,
        EncodeType::LlamaUrl,
    ];

    /// The formats that a board can be read from.
    pub const DECODE_TYPES: [EncodeType; 4] = [
        EncodeType::Ascii,
        EncodeType::Base64,
        EncodeType::PttUrl,
        EncodeType::LlamaUrl,
    ];

    /// The name of the format, as a player reads it.
    pub open spec fn spec_label(&self) -> Seq<char> {
        match self {
            EncodeType::Ascii => "ASCII"@,
            EncodeType::AsciiWithNumbers => "ASCII (with Numbers)"@,
            EncodeType::Base64 => "Base64"@,
            EncodeType::PttUrl => "PTT URL"@,
            EncodeType::LlamaUrl => "Llama URL"@,
        }
    }

    /// The name of the format, as a player reads it.
    pub fn label(&self) -> (r: &'static str)
        ensures
            r@ == self.spec_label(),
    {
        match self {
            EncodeType::Ascii => "ASCII",
            EncodeType::AsciiWithNumbers => "ASCII (with Numbers)",
            EncodeType::Base64 => "Base64",
            EncodeType::PttUrl => "PTT URL",
            EncodeType::LlamaUrl => "Llama URL",
        }
    }
}

} // verus!

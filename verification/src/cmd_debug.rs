//! Decoding of display controller command bytes for debug output.

use vstd::prelude::*;
use crate::compat::text::{byte_hex_text, decimal_text, push_byte_hex, push_decimal, string_push};
use crate::logger::Logger;

verus! {

/// A display controller command.
#[derive(Clone, Copy, Debug, PartialEq, Eq, Structural)]
pub enum Command {
    DisplayOn,
    DisplayOff,
    SetStartLine(u8),
    Unknown(u8),
}

/// The command a byte encodes: `0xAF` and `0xAE` switch the display on and
/// off, `0b01xx_xxxx` sets the start line to its low six bits.
pub open spec fn command_of(byte: u8) -> Command {
    if byte == 0xAF {
        Command::DisplayOn
    } else if byte == 0xAE {
        Command::DisplayOff
    } else if byte & 0xC0 == 0x40 {
        Command::SetStartLine(byte & 0x3F)
    } else {
        Command::Unknown(byte)
    }
}

/// How a byte decodes: `0xAF` is display on and `0xAE` display off, the
/// bytes from `0x40` to `0x7F` set the start line to the byte less `0x40`,
/// and every other byte is unknown and keeps its value.
pub proof fn law_command_decoding(b: u8)
    ensures
        (command_of(b) == Command::DisplayOn) <==> b == 0xAF,
        (command_of(b) == Command::DisplayOff) <==> b == 0xAE,
        (command_of(b) is SetStartLine) <==> 0x40 <= b <= 0x7F,
        0x40 <= b <= 0x7F ==> command_of(b) == Command::SetStartLine((b - 0x40) as u8),
        (b < 0x40 || (0x80 <= b && b != 0xAE && b != 0xAF)) ==> command_of(b) == Command::Unknown(b),
{
    assert((b & 0xC0 == 0x40) <==> (0x40 <= b && b <= 0x7F)) by (bit_vector);
    assert(0x40 <= b && b <= 0x7F ==> b & 0x3F == b - 0x40) by (bit_vector);
}

impl Command {
    /// The command a byte encodes.
    pub fn from_byte(byte: u8) -> (r: Self)
        ensures
            r == command_of(byte),
    {
        match byte {
            0xAF => Command::DisplayOn,
            0xAE => Command::DisplayOff,
            b if b & 0xC0 == 0x40 => Command::SetStartLine(b & 0x3F),
            _ => Command::Unknown(byte),
        }
    }

    /// The message that describes the command in a log.
    pub open spec fn message(self) -> Seq<char> {
        match self {
            Command::DisplayOn => "Display ON"@,
            Command::DisplayOff => "Display OFF"@,
            Command::SetStartLine(val) => "Set Start Line: "@ + decimal_text(val as nat) + seq!['\n'],
            Command::Unknown(code) => "Unknown Command: 0x"@ + byte_hex_text(code) + seq!['\n'],
        }
    }

    fn message_text(&self) -> (s: String)
        ensures
            s@ == self.message(),
    {
        match self {
            Command::DisplayOn => String::from_str("Display ON"),
            Command::DisplayOff => String::from_str("Display OFF"),
            Command::SetStartLine(val) => {
                let mut s = String::from_str("Set Start Line: ");
                push_decimal(&mut s, *val as usize);
                string_push(&mut s, '\n');
                s
            },
            Command::Unknown(code) => {
                let mut s = String::from_str("Unknown Command: 0x");
                push_byte_hex(&mut s, *code);
                string_push(&mut s, '\n');
                s
            },
        }
    }

    /// Logs the message that describes the command, as one informational
    /// message.
    pub fn log<const B: usize, L: Logger<B>>(&self, logger: &mut L)
        ensures
            final(logger).info_logged(old(logger), self.message()),
    {
        let msg = self.message_text();
        logger.log_info(msg.as_str());
    }
}

} // verus!

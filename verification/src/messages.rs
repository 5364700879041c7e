//! The values exchanged with the frontend, and lossy decoding of output
//! bytes into the strings those values carry.

use vstd::prelude::*;
use vstd::utf8::{decode_utf8, valid_utf8};

verus! {

/// Terminal dimensions in character cells. Pixel dimensions are always zero:
/// the terminal emulator works in cells.
#[derive(Clone, Copy, Debug, PartialEq, Eq, Structural)]
pub struct PtySize {
    pub rows: u16,
    pub cols: u16,
    pub pixel_width: u16,
    pub pixel_height: u16,
}

impl PtySize {
    /// The size used for the given cell dimensions, with zero pixel
    /// dimensions.
    pub fn cells(rows: u16, cols: u16) -> (r: PtySize)
        ensures
            r == (PtySize { rows, cols, pixel_width: 0, pixel_height: 0 }),
    {
        PtySize { rows, cols, pixel_width: 0, pixel_height: 0 }
    }
}

/// One batch of shell output for the frontend channel of a terminal.
#[derive(Clone, Debug)]
pub struct TerminalOutput {
    pub terminal_id: String,
    pub data: String,
}

/// The event posted to the frontend when an assigned terminal's child
/// process exits.
#[derive(Clone, Debug)]
pub struct TerminalExitPayload {
    pub terminal_id: String,
    pub exit_code: Option<i32>,
}

/// The characters that lossy UTF-8 decoding yields for a byte sequence.
/// Genuinely malformed sequences come out as replacement characters; the
/// result depends on the bytes alone.
pub uninterp spec fn lossy_decode(bytes: Seq<u8>) -> Seq<char>;

/// Relies on String::from_utf8_lossy: the result is a function of the bytes
/// alone, and valid UTF-8 input is decoded unchanged.
#[verifier::external_body]
pub fn decode_lossy(bytes: &[u8]) -> (r: String)
    ensures
        r@ == lossy_decode(bytes@),
        valid_utf8(bytes@) ==> r@ == decode_utf8(bytes@),
{
    String::from_utf8_lossy(bytes).to_string()
}

} // verus!

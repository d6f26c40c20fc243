//! How a Zstandard frame is laid out: where it ends.

use vstd::prelude::*;

verus! {

/// How many bytes a frame has before its first block, by its descriptor.
pub open spec fn header_len(descriptor: u8) -> int {
    let window: int = if descriptor / 32 % 2 == 1 {
        0
    } else {
        1
    };
    let dictionary: int = if descriptor % 4 == 3 {
        4
    } else {
        (descriptor % 4) as int
    };
    let content_size: int = if descriptor / 64 == 0 {
        1 - window
    } else if descriptor / 64 == 1 {
        2
    } else if descriptor / 64 == 2 {
        4
    } else {
        8
    };
    5 + window + dictionary + content_size
}

/// How many bytes of checksum a frame ends with, by its descriptor.
pub open spec fn checksum_len(descriptor: u8) -> int {
    if descriptor / 4 % 2 == 1 {
        4
    } else {
        0
    }
}

/// Where the blocks end of which the first starts `at` in `bytes`; nowhere where they are cut
/// off or of no known kind. A block has a header of three bytes: one bit for the last, two for
/// the kind (raw, one byte repeated, compressed), and the size.
pub open spec fn blocks_end(bytes: Seq<u8>, at: int) -> Option<int>
    decreases bytes.len() - at,
{
    if at < 0 || at + 3 > bytes.len() {
        None
    } else {
        let header = bytes[at] + bytes[at + 1] * 256 + bytes[at + 2] * 65536;
        let kind = header / 2 % 4;
        let end = at + 3 + if kind == 1 {
            1
        } else {
            header / 8
        };
        if kind == 3 || end > bytes.len() {
            None
        } else if header % 2 == 1 {
            Some(end)
        } else {
            blocks_end(bytes, end)
        }
    }
}

/// Where the frame ends that `bytes` start with; nowhere where they start with none.
pub open spec fn frame_end(bytes: Seq<u8>) -> Option<int> {
    if bytes.len() < 5 || bytes.take(4) != seq![0x28u8, 0xb5u8, 0x2fu8, 0xfdu8] {
        None
    } else {
        match blocks_end(bytes, header_len(bytes[4])) {
            Some(end) => if end + checksum_len(bytes[4]) <= bytes.len() {
                Some(end + checksum_len(bytes[4]))
            } else {
                None
            },
            None => None,
        }
    }
}

/// Whether `bytes` are whole frames, one behind the other.
pub open spec fn framed(bytes: Seq<u8>) -> bool
    decreases bytes.len(),
{
    bytes.len() == 0 || (frame_end(bytes) matches Some(end) && 0 < end <= bytes.len() && framed(
        bytes.skip(end),
    ))
}

} // verus!

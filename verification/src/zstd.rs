//! Zstandard frames, as `ruzstd` decodes them.

use vstd::prelude::*;
use crate::frame::frame_end;

verus! {

/// What `ruzstd` makes of bytes that start with a frame: the frame's content and the bytes
/// behind the frame, or what it says of bytes that it cannot decode.
pub uninterp spec fn zstd_frame(bytes: Seq<u8>) -> Result<(Seq<u8>, Seq<u8>), Seq<char>>;

/// `StreamingDecoder::new` on a slice, and `read_to_end` on the decoder: one whole frame is
/// decoded, and the slice is left at the byte behind it, where the frame's headers say that it
/// ends. The outcome is a function of the bytes alone: before each block the decoder hands out
/// all but the frame's window, however much is asked for at a time. It asks for the bytes of the
/// frame and for no more of them, so what stands behind the frame changes neither its content
/// nor where it ends. Bytes that do not decode, and blocks that hold more than the format allows,
/// come back as an error. That there is memory for the content is not part of the claim.
#[verifier::external_body]
pub(crate) fn decode_frame(bytes: &[u8]) -> (frame: Result<(Vec<u8>, &[u8]), String>)
    ensures
        match frame {
            Ok((content, left)) => {
                &&& zstd_frame(bytes@) == Ok::<(Seq<u8>, Seq<u8>), Seq<char>>((content@, left@))
                &&& left@.len() <= bytes@.len()
                &&& left@ == bytes@.skip(bytes@.len() - left@.len())
                &&& frame_end(bytes@) == Some(bytes@.len() - left@.len())
                &&& forall|behind: Seq<u8>| #[trigger]
                    zstd_frame(bytes@.take(bytes@.len() - left@.len()) + behind) == Ok::<
                        (Seq<u8>, Seq<u8>),
                        Seq<char>,
                    >((content@, behind))
            },
            Err(message) => zstd_frame(bytes@) == Err::<(Seq<u8>, Seq<u8>), Seq<char>>(message@),
        },
{
    let mut left: &[u8] = bytes;
    let mut content: Vec<u8> = Vec::new();
    let mut decoder = ruzstd::decoding::StreamingDecoder::new(&mut left).map_err(
        |err| err.to_string(),
    )?;
    std::io::Read::read_to_end(&mut decoder, &mut content).map_err(|err| err.to_string())?;
    Ok((content, left))
}

} // verus!

//! The service side of a framed serial link.
//!
//! A request goes out as the device's status in one frame, and the answer comes back as a command
//! in one frame. This module makes the outgoing frame and reads the incoming one; the transport
//! that carries them belongs to the caller.
use vstd::prelude::*;
use crate::codec::{
    command_bytes, command_fits, decode_command, has_at, status_bytes, status_fits, status_frame,
    CodecError, FRAME_SIZE,
};
use crate::protocol::{Command, CommandView, Status};

verus! {

/// What goes wrong on a framed serial link.
#[derive(Debug)]
pub enum SerialError<T, C> {
    /// The transport failed.
    Transport(T),
    /// A frame could not be encoded or decoded.
    Codec(C),
}

/// The frame that carries `status` to the peer.
pub fn request_frame<T>(status: &Status) -> (r: Result<Vec<u8>, SerialError<T, CodecError>>)
    ensures
        r is Ok <==> status_fits(status@) && status_bytes(status@).len() <= FRAME_SIZE,
        r matches Ok(f) ==> f@.len() == FRAME_SIZE && has_at(f@, 0, status_bytes(status@)),
        r matches Err(e) ==> e == SerialError::<T, CodecError>::Codec(CodecError::BufferFull),
{
    match status_frame(status) {
        Ok(f) => Ok(f),
        Err(e) => Err(SerialError::Codec(e)),
    }
}

/// The command that the peer answered with, read from its frame.
pub fn read_reply<'a, T>(frame: &'a [u8]) -> (r: Result<Command<'a>, SerialError<T, CodecError>>)
    ensures
        r is Ok <==> exists|x: CommandView| command_fits(x) && has_at(frame@, 0, command_bytes(x)),
        forall|x: CommandView|
            command_fits(x) && #[trigger] has_at(frame@, 0, command_bytes(x)) ==> (r matches Ok(c)
                && c@ == x),
        r matches Err(e) ==> e == SerialError::<T, CodecError>::Codec(CodecError::Malformed),
{
    match decode_command(frame) {
        Ok(c) => Ok(c),
        Err(e) => Err(SerialError::Codec(e)),
    }
}

} // verus!

//! The device side of a framed serial link.
//!
//! Here the device is a stand-in for a peer across the link: the peer sends its status in a
//! frame, and every call made on the device goes back to the peer as a command in a frame. This
//! module holds what the stand-in remembers and what goes into and comes out of the frames; the
//! transport that carries the frames belongs to the caller.
use vstd::prelude::*;
use crate::codec::{
    command_bytes, command_fits, command_frame, decode_status, has_at, status_bytes, status_fits,
    CodecError, FRAME_SIZE,
};
use crate::protocol::{Command, CommandView, StatusView};
use crate::traits::{
    heapless_new, version_bytes, FirmwareStatus, FirmwareVersion, VersionBuf, VERSION_CAPACITY,
};

verus! {

/// What goes wrong on a framed serial link.
#[derive(Debug)]
pub enum SerialError<T, C> {
    /// The transport failed.
    Transport(T),
    /// A frame could not be encoded or decoded.
    Codec(C),
    /// A version does not fit the stand-in's buffer, or a write came before any start.
    Other,
}

/// What the stand-in knows of the peer.
pub struct SerialView {
    /// The peer's running version.
    pub current: Seq<u8>,
    /// The offset of the next block of the version being written.
    pub offset: u32,
    /// The version being written, if any.
    pub next: Option<Seq<u8>>,
}

/// The stand-in for a device across a framed serial link.
pub struct Serial {
    status: FirmwareStatus<VersionBuf>,
}

/// The knowledge of the stand-in after the peer reported `s`: the running version and, where the
/// peer reports an update in progress, its version and offset; otherwise what it knew before.
pub open spec fn after_status(before: SerialView, s: StatusView) -> SerialView {
    match s.update {
        Some(u) => SerialView { current: s.version, offset: u.offset, next: Some(u.version) },
        None => SerialView { current: s.version, ..before },
    }
}

/// Whether the versions of `s` fit the stand-in's buffers.
pub open spec fn status_holdable(s: StatusView) -> bool {
    &&& s.version.len() <= VERSION_CAPACITY
    &&& s.update matches Some(u) ==> u.version.len() <= VERSION_CAPACITY
}

impl View for Serial {
    type V = SerialView;

    closed spec fn view(&self) -> SerialView {
        SerialView {
            current: self.status.current_version.bytes(),
            offset: self.status.next_offset,
            next: version_bytes(self.status.next_version),
        }
    }
}

impl Serial {
    /// The largest block that the link takes in one write: a frame less room for the rest of a
    /// write command.
    pub const MTU: usize = 968;

    /// A stand-in that knows nothing of the peer yet.
    pub fn new() -> (r: Self)
        ensures
            r@ == (SerialView { current: Seq::empty(), offset: 0, next: None }),
    {
        Serial {
            status: FirmwareStatus {
                current_version: heapless_new(),
                next_offset: 0,
                next_version: None,
            },
        }
    }

    /// Takes in the frame in which the peer sent its status, and returns the peer's status.
    pub fn receive_status<T>(&mut self, frame: &[u8]) -> (r: Result<
        FirmwareStatus<VersionBuf>,
        SerialError<T, CodecError>,
    >)
        ensures
            r is Ok <==> exists|s: StatusView|
                status_fits(s) && has_at(frame@, 0, status_bytes(s)) && status_holdable(s),
            forall|s: StatusView|
                status_fits(s) && #[trigger] has_at(frame@, 0, status_bytes(s)) ==> if status_holdable(
                    s,
                ) {
                    &&& final(self)@ == after_status(old(self)@, s)
                    &&& r matches Ok(f) && f.current_version.bytes() == final(self)@.current
                        && f.next_offset == final(self)@.offset && version_bytes(f.next_version)
                        == final(self)@.next
                } else {
                    &&& r matches Err(SerialError::Other)
                    &&& final(self)@ == old(self)@
                },
            (forall|s: StatusView|
                !(status_fits(s) && #[trigger] has_at(frame@, 0, status_bytes(s)))) ==> (r matches Err(
                SerialError::Codec(e),
            ) && e == CodecError::Malformed && final(self)@ == old(self)@),
    {
        let status = match decode_status(frame) {
            Ok(s) => s,
            Err(e) => {
                return Err(SerialError::Codec(e));
            },
        };
        let current = match <VersionBuf as FirmwareVersion>::from_slice(status.version.as_slice()) {
            Ok(v) => v,
            Err(()) => {
                return Err(SerialError::Other);
            },
        };
        match &status.update {
            Some(u) => {
                let next = match <VersionBuf as FirmwareVersion>::from_slice(u.version.as_slice()) {
                    Ok(v) => v,
                    Err(()) => {
                        return Err(SerialError::Other);
                    },
                };
                self.status.next_offset = u.offset;
                self.status.next_version = Some(next);
            },
            None => {},
        }
        self.status.current_version = current;
        Ok(self.status.duplicate())
    }

    /// Begins writing `version`: nothing of it has been written yet.
    pub fn start<T>(&mut self, version: &[u8]) -> (r: Result<(), SerialError<T, CodecError>>)
        ensures
            r is Ok <==> version@.len() <= VERSION_CAPACITY,
            r is Ok ==> final(self)@ == (SerialView {
                offset: 0,
                next: Some(version@),
                ..old(self)@
            }),
            r matches Err(e) ==> e is Other && final(self)@ == old(self)@,
    {
        match <VersionBuf as FirmwareVersion>::from_slice(version) {
            Ok(v) => {
                self.status.next_offset = 0;
                self.status.next_version = Some(v);
                Ok(())
            },
            Err(()) => Err(SerialError::Other),
        }
    }

    /// The frame that sends the peer the block `data` at `offset` of the version being written.
    pub fn write_frame<T>(&self, offset: u32, data: &[u8]) -> (r: Result<
        Vec<u8>,
        SerialError<T, CodecError>,
    >)
        ensures
            self@.next is None ==> (r matches Err(e) && e is Other),
            self@.next matches Some(v) ==> {
                let c = CommandView::Write {
                    version: v,
                    correlation_id: None,
                    offset,
                    data: data@,
                };
                &&& r is Ok <==> command_fits(c) && command_bytes(c).len() <= FRAME_SIZE
                &&& r matches Ok(f) ==> f@.len() == FRAME_SIZE && has_at(f@, 0, command_bytes(c))
                &&& r matches Err(e) ==> e == SerialError::<T, CodecError>::Codec(
                    CodecError::BufferFull,
                )
            },
    {
        match &self.status.next_version {
            None => Err(SerialError::Other),
            Some(v) => {
                let command = Command::new_write(v.as_bytes(), offset, data, None);
                match command_frame(&command) {
                    Ok(f) => Ok(f),
                    Err(e) => Err(SerialError::Codec(e)),
                }
            },
        }
    }

    /// The frame that tells the peer to swap to `version`.
    pub fn update_frame<T>(&self, version: &[u8], checksum: &[u8]) -> (r: Result<
        Vec<u8>,
        SerialError<T, CodecError>,
    >)
        ensures
            ({
                let c = CommandView::Swap {
                    version: version@,
                    correlation_id: None,
                    checksum: checksum@,
                };
                &&& r is Ok <==> command_fits(c) && command_bytes(c).len() <= FRAME_SIZE
                &&& r matches Ok(f) ==> f@.len() == FRAME_SIZE && has_at(f@, 0, command_bytes(c))
                &&& r matches Err(e) ==> e == SerialError::<T, CodecError>::Codec(
                    CodecError::BufferFull,
                )
            }),
    {
        let command = Command::new_swap(version, checksum, None);
        match command_frame(&command) {
            Ok(f) => Ok(f),
            Err(e) => Err(SerialError::Codec(e)),
        }
    }

    /// The frame that tells the peer that it runs the wanted version.
    pub fn synced_frame<T>(&self) -> (r: Result<Vec<u8>, SerialError<T, CodecError>>)
        ensures
            ({
                let c = CommandView::Sync {
                    version: self@.current,
                    correlation_id: None,
                    poll: None,
                };
                &&& r is Ok <==> command_fits(c) && command_bytes(c).len() <= FRAME_SIZE
                &&& r matches Ok(f) ==> f@.len() == FRAME_SIZE && has_at(f@, 0, command_bytes(c))
                &&& r matches Err(e) ==> e == SerialError::<T, CodecError>::Codec(
                    CodecError::BufferFull,
                )
            }),
    {
        let command = Command::new_sync(self.status.current_version.as_bytes(), None, None);
        match command_frame(&command) {
            Ok(f) => Ok(f),
            Err(e) => Err(SerialError::Codec(e)),
        }
    }
}

} // verus!

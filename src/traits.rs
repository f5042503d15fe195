//! The capabilities that the updater works with: versions, device status and services.
use vstd::prelude::*;
use vstd::slice::slice_to_vec;
use crate::protocol::{Command, Status};

verus! {

/// A firmware version as a device stores it.
pub trait FirmwareVersion: Sized {
    /// The bytes of the version.
    spec fn bytes(&self) -> Seq<u8>;

    /// Whether a version made of `data` can be held.
    spec fn holds(data: Seq<u8>) -> bool;

    /// The bytes of the version.
    fn as_bytes(&self) -> (r: &[u8])
        ensures
            r@ == self.bytes(),
    ;

    /// A version made of `data`, or `Err` where it cannot be held.
    fn from_slice(data: &[u8]) -> (r: Result<Self, ()>)
        ensures
            r is Ok <==> Self::holds(data@),
            r matches Ok(v) ==> v.bytes() == data@,
    ;

    /// A copy of the version.
    fn duplicate(&self) -> (r: Self)
        ensures
            r.bytes() == self.bytes(),
    ;
}

/// The most bytes that a [`VersionBuf`] holds.
pub const VERSION_CAPACITY: usize = 16;

/// A version kept in a fixed buffer of [`VERSION_CAPACITY`] bytes.
pub type VersionBuf = heapless::Vec<u8, 16>;

#[verifier::external_type_specification]
#[verifier::external_body]
#[verifier::reject_recursive_types(T)]
pub struct ExHeaplessVec<T, const N: usize>(heapless::Vec<T, N>);

/// The bytes that a [`VersionBuf`] holds.
pub uninterp spec fn held_bytes(v: heapless::Vec<u8, 16>) -> Seq<u8>;

/// Relies on heapless::Vec::from_slice: `Ok` exactly when the bytes fit the capacity, and then
/// holding them in order.
#[verifier::external_body]
fn heapless_from_slice(data: &[u8]) -> (r: Result<VersionBuf, ()>)
    ensures
        r is Ok <==> data@.len() <= VERSION_CAPACITY,
        r matches Ok(v) ==> held_bytes(v) == data@,
{
    heapless::Vec::from_slice(data)
}

/// Relies on heapless::Vec::as_slice: the bytes held, in order.
#[verifier::external_body]
fn heapless_as_slice(v: &VersionBuf) -> (r: &[u8])
    ensures
        r@ == held_bytes(*v),
{
    v.as_slice()
}

/// Relies on heapless's Clone for Vec: the copy holds the same bytes.
#[verifier::external_body]
fn heapless_clone(v: &VersionBuf) -> (r: VersionBuf)
    ensures
        held_bytes(r) == held_bytes(*v),
{
    v.clone()
}

/// Relies on heapless::Vec::new: an empty vector.
#[verifier::external_body]
pub(crate) fn heapless_new() -> (r: VersionBuf)
    ensures
        held_bytes(r) == Seq::<u8>::empty(),
{
    heapless::Vec::new()
}

impl FirmwareVersion for VersionBuf {
    open spec fn bytes(&self) -> Seq<u8> {
        held_bytes(*self)
    }

    open spec fn holds(data: Seq<u8>) -> bool {
        data.len() <= VERSION_CAPACITY
    }

    fn as_bytes(&self) -> (r: &[u8]) {
        heapless_as_slice(self)
    }

    fn from_slice(data: &[u8]) -> (r: Result<Self, ()>) {
        heapless_from_slice(data)
    }

    fn duplicate(&self) -> (r: Self) {
        heapless_clone(self)
    }
}

impl FirmwareVersion for Vec<u8> {
    open spec fn bytes(&self) -> Seq<u8> {
        self@
    }

    open spec fn holds(data: Seq<u8>) -> bool {
        true
    }

    fn as_bytes(&self) -> (r: &[u8]) {
        self.as_slice()
    }

    fn from_slice(data: &[u8]) -> (r: Result<Self, ()>) {
        Ok(slice_to_vec(data))
    }

    fn duplicate(&self) -> (r: Self) {
        slice_to_vec(self.as_slice())
    }
}

/// The state of the firmware on a device.
pub struct FirmwareStatus<V: FirmwareVersion> {
    /// The running version.
    pub current_version: V,
    /// The offset of the next block of the version being written.
    pub next_offset: u32,
    /// The version being written, if any.
    pub next_version: Option<V>,
}

/// The bytes of an optional version.
pub open spec fn version_bytes<V: FirmwareVersion>(v: Option<V>) -> Option<Seq<u8>> {
    match v {
        Some(v) => Some(v.bytes()),
        None => None,
    }
}

impl<V: FirmwareVersion> FirmwareStatus<V> {
    /// A copy of the status.
    pub fn duplicate(&self) -> (r: Self)
        ensures
            r.current_version.bytes() == self.current_version.bytes(),
            r.next_offset == self.next_offset,
            version_bytes(r.next_version) == version_bytes(self.next_version),
    {
        let next_version = match &self.next_version {
            Some(v) => Some(v.duplicate()),
            None => None,
        };
        FirmwareStatus {
            current_version: self.current_version.duplicate(),
            next_offset: self.next_offset,
            next_version,
        }
    }
}

/// An update service: it answers a device's status with the next command.
pub trait UpdateService {
    /// What a failed request reports.
    type Error;

    /// Sends `status` and returns the command that the service answered with.
    fn request<'m>(&'m mut self, status: &'m Status<'m>) -> Result<Command<'m>, Self::Error>;
}

} // verus!

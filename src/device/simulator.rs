//! A simulated device that keeps only its version.
use vstd::prelude::*;
use crate::traits::{held_bytes, FirmwareStatus, FirmwareVersion, VersionBuf, VERSION_CAPACITY};

verus! {

/// A simulated device: it accepts every block, and on an update runs the new version at once.
pub struct Simulator {
    version: VersionBuf,
}

impl Simulator {
    /// The largest block that the simulator takes in one write.
    pub const MTU: usize = 256;

    /// The version that the simulator runs.
    pub closed spec fn current(&self) -> Seq<u8> {
        held_bytes(self.version)
    }

    /// A simulator running `version`.
    pub fn new(version: &[u8]) -> (r: Self)
        requires
            version@.len() <= VERSION_CAPACITY,
        ensures
            r.current() == version@,
    {
        match <VersionBuf as FirmwareVersion>::from_slice(version) {
            Ok(v) => Simulator { version: v },
            Err(()) => {
                proof {
                    assert(false);
                }
                Simulator { version: crate::traits::heapless_new() }
            },
        }
    }

    /// The version that the simulator runs.
    pub fn version(&self) -> (r: &[u8])
        ensures
            r@ == self.current(),
    {
        self.version.as_bytes()
    }

    /// The simulator's status: its version, and nothing being written.
    pub fn status(&self) -> (r: FirmwareStatus<VersionBuf>)
        ensures
            r.current_version.bytes() == self.current(),
            r.next_offset == 0,
            r.next_version is None,
    {
        FirmwareStatus {
            current_version: self.version.duplicate(),
            next_offset: 0,
            next_version: None,
        }
    }

    /// Begins an update; the simulator keeps nothing of it.
    pub fn start(&mut self, version: &[u8])
        ensures
            final(self).current() == old(self).current(),
    {
    }

    /// Takes a block; the simulator keeps nothing of it.
    pub fn write(&mut self, offset: u32, data: &[u8])
        ensures
            final(self).current() == old(self).current(),
    {
    }

    /// Swaps to `version`, which the simulator then runs.
    pub fn update(&mut self, version: &[u8], checksum: &[u8])
        requires
            version@.len() <= VERSION_CAPACITY,
        ensures
            final(self).current() == version@,
    {
        *self = Simulator::new(version);
    }

    /// Notes that the simulator is up to date.
    pub fn synced(&mut self)
        ensures
            final(self).current() == old(self).current(),
    {
    }
}

} // verus!

//! An update service that holds the wanted firmware in memory.
use vstd::prelude::*;
use crate::protocol::{same_bytes, Command, CommandView, Status, StatusView};
use crate::traits::UpdateService;

verus! {

/// The block size used when a status does not name one.
pub const DEFAULT_MTU: u32 = 128;

/// The length of the checksum sent with a swap: that many zero bytes.
pub const CHECKSUM_LEN: usize = 32;

/// The size of the next block: the device's MTU (or [`DEFAULT_MTU`]), but no more than what is left.
pub open spec fn block_len(mtu: Option<u32>, remaining: int) -> int {
    let m = match mtu {
        Some(m) => m as int,
        None => DEFAULT_MTU as int,
    };
    if m < remaining {
        m
    } else {
        remaining
    }
}

/// The checksum sent with a swap.
pub open spec fn zero_checksum() -> Seq<u8> {
    Seq::new(CHECKSUM_LEN as nat, |i: int| 0u8)
}

/// The command that a service wanting `version`, made of `firmware`, answers to `s`.
pub open spec fn serve(version: Seq<u8>, firmware: Seq<u8>, s: StatusView) -> CommandView {
    let cid = s.correlation_id;
    if s.version == version {
        CommandView::Sync { version, correlation_id: cid, poll: None }
    } else if s.update is Some && s.update.unwrap().version == version {
        let offset = s.update.unwrap().offset;
        if offset >= firmware.len() {
            CommandView::Swap { version, correlation_id: cid, checksum: zero_checksum() }
        } else {
            let n = block_len(s.mtu, firmware.len() - offset);
            CommandView::Write {
                version,
                correlation_id: cid,
                offset,
                data: firmware.subrange(offset as int, offset + n),
            }
        }
    } else {
        let n = block_len(s.mtu, firmware.len() as int);
        CommandView::Write { version, correlation_id: cid, offset: 0, data: firmware.subrange(0, n) }
    }
}

/// An update service that wants its devices to run one version, whose image it holds.
pub struct InMemory<'a> {
    expected_version: &'a [u8],
    expected_firmware: &'a [u8],
    checksum: [u8; 32],
}

impl<'a> InMemory<'a> {
    /// The checksum buffer holds zeros.
    #[verifier::type_invariant]
    spec fn zeroed(&self) -> bool {
        self.checksum@ == zero_checksum()
    }

    /// The wanted version.
    pub closed spec fn version(&self) -> Seq<u8> {
        self.expected_version@
    }

    /// The image of the wanted version.
    pub closed spec fn firmware(&self) -> Seq<u8> {
        self.expected_firmware@
    }

    /// A service that wants `expected_version`, whose image is `expected_firmware`.
    pub fn new(expected_version: &'a [u8], expected_firmware: &'a [u8]) -> (r: Self)
        ensures
            r.version() == expected_version@,
            r.firmware() == expected_firmware@,
    {
        let checksum = [0u8; 32];
        assert(checksum@ =~= zero_checksum());
        InMemory { expected_version, expected_firmware, checksum }
    }

    /// The command that answers `status`.
    pub fn respond<'m>(&'m self, status: &Status) -> (r: Command<'m>)
        ensures
            r@ == serve(self.version(), self.firmware(), status@),
    {
        let data = self.expected_firmware;
        let len = data.len();
        let mtu: usize = match status.mtu {
            Some(m) => m as usize,
            None => DEFAULT_MTU as usize,
        };
        if same_bytes(self.expected_version, status.version.as_slice()) {
            Command::new_sync(self.expected_version, None, status.correlation_id)
        } else {
            match &status.update {
                Some(update) if same_bytes(update.version.as_slice(), self.expected_version) => {
                    let offset = update.offset as usize;
                    if offset >= len {
                        proof {
                            use_type_invariant(self);
                        }
                        let checksum = self.checksum.as_slice();
                        Command::new_swap(self.expected_version, checksum, status.correlation_id)
                    } else {
                        let n = if mtu < len - offset { mtu } else { len - offset };
                        let block = vstd::slice::slice_subrange(data, offset, offset + n);
                        Command::new_write(
                            self.expected_version,
                            update.offset,
                            block,
                            status.correlation_id,
                        )
                    }
                },
                _ => {
                    let n = if mtu < len { mtu } else { len };
                    let block = vstd::slice::slice_subrange(data, 0, n);
                    Command::new_write(self.expected_version, 0, block, status.correlation_id)
                },
            }
        }
    }
}

impl<'a> UpdateService for InMemory<'a> {
    type Error = ();

    fn request<'m>(&'m mut self, status: &'m Status<'m>) -> (r: Result<Command<'m>, Self::Error>)
        ensures
            r matches Ok(c) && c@ == serve(old(self).version(), old(self).firmware(), status@),
            final(self).version() == old(self).version(),
            final(self).firmware() == old(self).firmware(),
    {
        Ok(self.respond(status))
    }
}

} // verus!

//! The messages exchanged between a device and an update service.
use vstd::prelude::*;

verus! {

/// A borrowed byte string carried inside a protocol message.
#[derive(Debug, Hash)]
pub struct Bytes<'a> {
    data: &'a [u8],
}

impl<'a> View for Bytes<'a> {
    type V = Seq<u8>;

    closed spec fn view(&self) -> Seq<u8> {
        self.data@
    }
}

impl<'a> PartialEq for Bytes<'a> {
    fn eq(&self, other: &Bytes<'a>) -> (r: bool) {
        same_bytes(self.data, other.data)
    }
}

impl<'a> vstd::std_specs::cmp::PartialEqSpecImpl for Bytes<'a> {
    open spec fn obeys_eq_spec() -> bool {
        true
    }

    open spec fn eq_spec(&self, other: &Bytes<'a>) -> bool {
        self@ == other@
    }
}

impl<'a> Default for Bytes<'a> {
    fn default() -> (r: Self)
        ensures
            r@ == Seq::<u8>::empty(),
    {
        let empty: &'a [u8] = &[];
        Bytes { data: empty }
    }
}

impl<'a> Bytes<'a> {
    /// Wraps a byte slice.
    pub fn new(data: &'a [u8]) -> (r: Self)
        ensures
            r@ == data@,
    {
        Bytes { data }
    }

    /// The wrapped bytes.
    pub fn as_slice(&self) -> (r: &'a [u8])
        ensures
            r@ == self@,
    {
        self.data
    }

    /// Number of bytes held.
    pub fn len(&self) -> (r: usize)
        ensures
            r == self@.len(),
    {
        self.data.len()
    }
}


/// Whether two byte strings are equal.
pub fn same_bytes(a: &[u8], b: &[u8]) -> (r: bool)
    ensures
        r == (a@ == b@),
{
    if a.len() != b.len() {
        return false;
    }
    let mut i: usize = 0;
    while i < a.len()
        invariant
            a@.len() == b@.len(),
            i <= a@.len(),
            a@.subrange(0, i as int) == b@.subrange(0, i as int),
        decreases a@.len() - i,
    {
        if a[i] != b[i] {
            assert(a@[i as int] == a@.subrange(0, i + 1)[i as int]);
            return false;
        }
        assert(a@.subrange(0, i + 1) =~= a@.subrange(0, i as int).push(a@[i as int]));
        assert(b@.subrange(0, i + 1) =~= b@.subrange(0, i as int).push(b@[i as int]));
        i = i + 1;
    }
    assert(a@ =~= a@.subrange(0, i as int));
    assert(b@ =~= b@.subrange(0, i as int));
    true
}

/// The mathematical content of an in-progress update record.
pub struct UpdateView {
    pub version: Seq<u8>,
    pub offset: u32,
}

/// The mathematical content of a [`Status`].
pub struct StatusView {
    pub version: Seq<u8>,
    pub mtu: Option<u32>,
    pub correlation_id: Option<u32>,
    pub update: Option<UpdateView>,
}

/// The mathematical content of a [`Command`].
pub enum CommandView {
    Wait { correlation_id: Option<u32>, poll: Option<u32> },
    Sync { version: Seq<u8>, correlation_id: Option<u32>, poll: Option<u32> },
    Write { version: Seq<u8>, correlation_id: Option<u32>, offset: u32, data: Seq<u8> },
    Swap { version: Seq<u8>, correlation_id: Option<u32>, checksum: Seq<u8> },
}

impl CommandView {
    /// The correlation id that a command carries, whatever its kind.
    pub open spec fn correlation(self) -> Option<u32> {
        match self {
            CommandView::Wait { correlation_id, .. } => correlation_id,
            CommandView::Sync { correlation_id, .. } => correlation_id,
            CommandView::Write { correlation_id, .. } => correlation_id,
            CommandView::Swap { correlation_id, .. } => correlation_id,
        }
    }
}

/// The state of the firmware being written to a device.
#[derive(Debug)]
pub struct UpdateStatus<'a> {
    /// The version of the firmware being written.
    pub version: Bytes<'a>,
    /// The offset of the next block that the device expects.
    pub offset: u32,
}

impl<'a> View for UpdateStatus<'a> {
    type V = UpdateView;

    open spec fn view(&self) -> UpdateView {
        UpdateView { version: self.version@, offset: self.offset }
    }
}

/// What a device reports to the update service: its running firmware and any update in progress.
#[derive(Debug)]
pub struct Status<'a> {
    /// The version of the running firmware.
    pub version: Bytes<'a>,
    /// The largest block of firmware that the device accepts in one write.
    pub mtu: Option<u32>,
    /// An opaque tag that the service echoes back in its command.
    pub correlation_id: Option<u32>,
    /// The firmware being written, if any.
    pub update: Option<UpdateStatus<'a>>,
}

/// The view of an optional update record.
pub open spec fn update_view(u: Option<UpdateStatus>) -> Option<UpdateView> {
    match u {
        Some(u) => Some(u@),
        None => None,
    }
}

impl<'a> View for Status<'a> {
    type V = StatusView;

    open spec fn view(&self) -> StatusView {
        StatusView {
            version: self.version@,
            mtu: self.mtu,
            correlation_id: self.correlation_id,
            update: update_view(self.update),
        }
    }
}

impl<'a> Status<'a> {
    /// A status for a device on which no firmware is being written.
    pub fn first(version: &'a [u8], mtu: Option<u32>, correlation_id: Option<u32>) -> (r: Self)
        ensures
            r@ == (StatusView { version: version@, mtu, correlation_id, update: None }),
    {
        Status { version: Bytes::new(version), mtu, correlation_id, update: None }
    }

    /// A status for a device that is writing `next_version` and expects the block at `offset`.
    pub fn update(
        version: &'a [u8],
        mtu: Option<u32>,
        offset: u32,
        next_version: &'a [u8],
        correlation_id: Option<u32>,
    ) -> (r: Self)
        ensures
            r@ == (StatusView {
                version: version@,
                mtu,
                correlation_id,
                update: Some(UpdateView { version: next_version@, offset }),
            }),
    {
        Status {
            version: Bytes::new(version),
            mtu,
            correlation_id,
            update: Some(UpdateStatus { version: Bytes::new(next_version), offset }),
        }
    }
}

/// What the update service tells a device to do next.
#[derive(Debug)]
pub enum Command<'a> {
    /// Nothing to do; report again later, after `poll` seconds if given.
    Wait { correlation_id: Option<u32>, poll: Option<u32> },
    /// The device runs `version`, the one wanted; report again after `poll` seconds if given.
    Sync { version: Bytes<'a>, correlation_id: Option<u32>, poll: Option<u32> },
    /// Write `data` at `offset` of the image of `version`.
    Write { version: Bytes<'a>, correlation_id: Option<u32>, offset: u32, data: Bytes<'a> },
    /// The image of `version` is complete; check it against `checksum` and swap to it.
    Swap { version: Bytes<'a>, correlation_id: Option<u32>, checksum: Bytes<'a> },
}

impl<'a> View for Command<'a> {
    type V = CommandView;

    open spec fn view(&self) -> CommandView {
        match *self {
            Command::Wait { correlation_id, poll } => CommandView::Wait { correlation_id, poll },
            Command::Sync { version, correlation_id, poll } => CommandView::Sync {
                version: version@,
                correlation_id,
                poll,
            },
            Command::Write { version, correlation_id, offset, data } => CommandView::Write {
                version: version@,
                correlation_id,
                offset,
                data: data@,
            },
            Command::Swap { version, correlation_id, checksum } => CommandView::Swap {
                version: version@,
                correlation_id,
                checksum: checksum@,
            },
        }
    }
}

impl<'a> Command<'a> {
    /// A command to wait.
    pub fn new_wait(poll: Option<u32>, correlation_id: Option<u32>) -> (r: Self)
        ensures
            r@ == (CommandView::Wait { correlation_id, poll }),
    {
        Command::Wait { correlation_id, poll }
    }

    /// A command telling the device that it runs `version`, the wanted one.
    pub fn new_sync(version: &'a [u8], poll: Option<u32>, correlation_id: Option<u32>) -> (r: Self)
        ensures
            r@ == (CommandView::Sync { version: version@, correlation_id, poll }),
    {
        Command::Sync { version: Bytes::new(version), correlation_id, poll }
    }

    /// A command to swap to the written image of `version`.
    pub fn new_swap(version: &'a [u8], checksum: &'a [u8], correlation_id: Option<u32>) -> (r: Self)
        ensures
            r@ == (CommandView::Swap { version: version@, correlation_id, checksum: checksum@ }),
    {
        Command::Swap { version: Bytes::new(version), correlation_id, checksum: Bytes::new(checksum) }
    }

    /// A command to write one block of the image of `version`.
    pub fn new_write(
        version: &'a [u8],
        offset: u32,
        data: &'a [u8],
        correlation_id: Option<u32>,
    ) -> (r: Self)
        ensures
            r@ == (CommandView::Write { version: version@, correlation_id, offset, data: data@ }),
    {
        Command::Write { version: Bytes::new(version), correlation_id, offset, data: Bytes::new(data) }
    }
}

} // verus!

//! The updater: the decisions that drive a device from its version to the one a service wants.
//!
//! One round of the update loop goes: build a [`Status`] from the [`UpdaterState`], send it to the
//! service while a timer runs, turn what came back into a [`Reply`], and let
//! [`Step::plan`] decide the [`Step`]: which device calls to make, in which order,
//! whether the run ends, and how long to sleep before the next round. After a write the state
//! records it with [`UpdaterState::record_write`].
use vstd::prelude::*;
use crate::protocol::{Command, CommandView, Status, StatusView, UpdateView};
use crate::traits::{version_bytes, FirmwareStatus, FirmwareVersion};

verus! {

/// The errors that end an update run.
#[derive(Debug)]
pub enum Error<D, S> {
    /// A version sent by the service cannot be held by the device's version type.
    DecodeVersion,
    /// Sleeping failed.
    Delay,
    /// The device failed.
    Device(D),
    /// The service failed.
    Service(S),
}

/// How an update run ended.
#[derive(PartialEq, Eq, Structural, Debug, Clone, Copy)]
pub enum DeviceStatus {
    /// The device runs the wanted version; check again after the given number of seconds.
    Synced(Option<u32>),
    /// The device has been given a new image; reset it to run the new version.
    Updated,
}

/// Timing of the update loop.
pub struct UpdaterConfig {
    /// How long to wait for the service to answer, in milliseconds.
    pub timeout_ms: u32,
    /// How long to wait between rounds when the service gives no hint, in milliseconds.
    pub backoff_ms: u32,
}

impl Default for UpdaterConfig {
    fn default() -> (r: Self)
        ensures
            r.timeout_ms == 15_000,
            r.backoff_ms == 1_000,
    {
        UpdaterConfig { timeout_ms: 15_000, backoff_ms: 1_000 }
    }
}

/// What the updater knows of the device between rounds.
pub struct UpdaterView {
    /// The running version.
    pub current: Seq<u8>,
    /// The offset of the next block of the version being written.
    pub offset: u32,
    /// The version being written, if any.
    pub next: Option<Seq<u8>>,
}

/// The status that reports `s`, advertising `mtu`.
pub open spec fn status_of(s: UpdaterView, mtu: u32) -> StatusView {
    StatusView {
        version: s.current,
        mtu: Some(mtu),
        correlation_id: None,
        update: match s.next {
            Some(v) => Some(UpdateView { version: v, offset: s.offset }),
            None => None,
        },
    }
}

/// The state after a block `len` bytes long was written at `offset` of the image of `version`.
pub open spec fn recorded(s: UpdaterView, version: Seq<u8>, offset: u32, len: nat) -> UpdaterView {
    UpdaterView { current: s.current, offset: (offset + len) as u32, next: Some(version) }
}

/// The state of one update run: the device's running version and the progress of the version
/// being written.
pub struct UpdaterState<V: FirmwareVersion> {
    current_version: V,
    next_offset: u32,
    next_version: Option<V>,
}

impl<V: FirmwareVersion> View for UpdaterState<V> {
    type V = UpdaterView;

    closed spec fn view(&self) -> UpdaterView {
        UpdaterView {
            current: self.current_version.bytes(),
            offset: self.next_offset,
            next: version_bytes(self.next_version),
        }
    }
}

impl<V: FirmwareVersion> UpdaterState<V> {
    /// The state that the device reported at the start of a run.
    pub fn new(initial: FirmwareStatus<V>) -> (r: Self)
        ensures
            r@ == (UpdaterView {
                current: initial.current_version.bytes(),
                offset: initial.next_offset,
                next: version_bytes(initial.next_version),
            }),
    {
        UpdaterState {
            current_version: initial.current_version,
            next_offset: initial.next_offset,
            next_version: initial.next_version,
        }
    }

    /// The status to send this round, advertising `mtu` as the largest block the device takes.
    pub fn status(&self, mtu: u32) -> (r: Status<'_>)
        ensures
            r@ == status_of(self@, mtu),
    {
        match &self.next_version {
            Some(next) => Status::update(
                self.current_version.as_bytes(),
                Some(mtu),
                self.next_offset,
                next.as_bytes(),
                None,
            ),
            None => Status::first(self.current_version.as_bytes(), Some(mtu), None),
        }
    }

    /// Notes that the block `len` bytes long was written at `offset` of the image of `version`:
    /// the next block expected follows it. Fails with `DecodeVersion`, changing nothing, where the
    /// device's version type cannot hold `version`.
    pub fn record_write<D, S>(&mut self, version: &[u8], offset: u32, len: usize) -> (r: Result<
        (),
        Error<D, S>,
    >)
        requires
            offset + len <= u32::MAX,
        ensures
            r is Ok <==> V::holds(version@),
            r is Ok ==> final(self)@ == recorded(old(self)@, version@, offset, len as nat),
            r matches Err(e) ==> e is DecodeVersion && final(self)@ == old(self)@,
    {
        match V::from_slice(version) {
            Ok(v) => {
                self.next_offset = offset + len as u32;
                self.next_version = Some(v);
                Ok(())
            },
            Err(()) => Err(Error::DecodeVersion),
        }
    }

    /// A copy of the state, to record a round in while the status sent in it is still borrowed.
    pub fn duplicate(&self) -> (r: Self)
        ensures
            r@ == self@,
    {
        let next_version = match &self.next_version {
            Some(v) => Some(v.duplicate()),
            None => None,
        };
        UpdaterState {
            current_version: self.current_version.duplicate(),
            next_offset: self.next_offset,
            next_version,
        }
    }
}

/// What came of sending a status to the service.
pub enum Reply<'a> {
    /// The timer ran out first.
    TimedOut,
    /// The service failed.
    Failed,
    /// The service answered.
    Answer(Command<'a>),
}

/// The mathematical content of a [`Reply`].
pub enum ReplyView {
    TimedOut,
    Failed,
    Answer(CommandView),
}

impl<'a> View for Reply<'a> {
    type V = ReplyView;

    open spec fn view(&self) -> ReplyView {
        match *self {
            Reply::TimedOut => ReplyView::TimedOut,
            Reply::Failed => ReplyView::Failed,
            Reply::Answer(c) => ReplyView::Answer(c@),
        }
    }
}

/// What to do after a reply.
pub enum Step<'a> {
    /// Call the device's `start` with `version` if `start` is set, then its `write` with `offset`
    /// and `data`; record the write; sleep `delay_ms`; go on with the next round.
    Write { start: bool, version: &'a [u8], offset: u32, data: &'a [u8], delay_ms: u32 },
    /// Call the device's `synced`; the run ends with `DeviceStatus::Synced(Some(wait))`.
    Synced { wait: u32 },
    /// Call the device's `update` with `version` and `checksum`; the run ends with
    /// `DeviceStatus::Updated`.
    Swap { version: &'a [u8], checksum: &'a [u8] },
    /// Sleep `delay_ms`, then go on with the next round, sending the same status.
    Retry { delay_ms: u32 },
}

/// The mathematical content of a [`Step`].
pub enum StepView {
    Write { start: bool, version: Seq<u8>, offset: u32, data: Seq<u8>, delay_ms: u32 },
    Synced { wait: u32 },
    Swap { version: Seq<u8>, checksum: Seq<u8> },
    Retry { delay_ms: u32 },
}

impl<'a> View for Step<'a> {
    type V = StepView;

    open spec fn view(&self) -> StepView {
        match *self {
            Step::Write { start, version, offset, data, delay_ms } => StepView::Write {
                start,
                version: version@,
                offset,
                data: data@,
                delay_ms,
            },
            Step::Synced { wait } => StepView::Synced { wait },
            Step::Swap { version, checksum } => StepView::Swap {
                version: version@,
                checksum: checksum@,
            },
            Step::Retry { delay_ms } => StepView::Retry { delay_ms },
        }
    }
}

/// A call that the updater makes on the device.
pub enum DeviceCall {
    Start { version: Seq<u8> },
    Write { offset: u32, data: Seq<u8> },
    Synced,
    Update { version: Seq<u8>, checksum: Seq<u8> },
}

/// The device calls that a step makes, in order.
pub open spec fn device_calls(step: StepView) -> Seq<DeviceCall> {
    match step {
        StepView::Write { start, version, offset, data, .. } => if start {
            seq![DeviceCall::Start { version }, DeviceCall::Write { offset, data }]
        } else {
            seq![DeviceCall::Write { offset, data }]
        },
        StepView::Synced { .. } => seq![DeviceCall::Synced],
        StepView::Swap { version, checksum } => seq![DeviceCall::Update { version, checksum }],
        StepView::Retry { .. } => Seq::empty(),
    }
}

/// How the run ends after a step, if it does.
pub open spec fn outcome(step: StepView) -> Option<DeviceStatus> {
    match step {
        StepView::Synced { wait } => Some(DeviceStatus::Synced(Some(wait))),
        StepView::Swap { .. } => Some(DeviceStatus::Updated),
        _ => None,
    }
}

/// The sleep, in seconds, when the service gives no hint: the backoff in whole seconds.
pub open spec fn backoff_secs(backoff_ms: u32) -> u32 {
    (backoff_ms / 1000) as u32
}

/// A poll hint where the service gave a positive one, else `fallback`.
pub open spec fn hint_or(poll: Option<u32>, fallback: u32) -> u32 {
    match poll {
        Some(p) => if p > 0 {
            p
        } else {
            fallback
        },
        None => fallback,
    }
}

/// `secs` seconds in milliseconds, capped at `u32::MAX`.
pub open spec fn millis(secs: u32) -> u32 {
    if secs * 1000 > u32::MAX {
        u32::MAX
    } else {
        (secs * 1000) as u32
    }
}

/// Whether a block at `offset` ends within the offsets that a status can report.
pub open spec fn write_fits(offset: u32, data: Seq<u8>) -> bool {
    offset + data.len() <= u32::MAX
}

/// The step taken on `reply`, with a backoff of `backoff_ms` between rounds.
///
/// A failure, a timeout, and a write whose block would end past the largest offset a status can
/// report are all taken as a passing failure of the service: nothing is called on the device, and
/// the same status goes again after the backoff.
pub open spec fn plan(reply: ReplyView, backoff_ms: u32) -> StepView {
    let fallback = backoff_secs(backoff_ms);
    match reply {
        ReplyView::Answer(CommandView::Write { version, offset, data, .. }) => if write_fits(
            offset,
            data,
        ) {
            StepView::Write {
                start: offset == 0,
                version,
                offset,
                data,
                delay_ms: millis(fallback),
            }
        } else {
            StepView::Retry { delay_ms: millis(fallback) }
        },
        ReplyView::Answer(CommandView::Sync { poll, .. }) => StepView::Synced {
            wait: hint_or(poll, fallback),
        },
        ReplyView::Answer(CommandView::Wait { poll, .. }) => StepView::Retry {
            delay_ms: millis(hint_or(poll, fallback)),
        },
        ReplyView::Answer(CommandView::Swap { version, checksum, .. }) => StepView::Swap {
            version,
            checksum,
        },
        _ => StepView::Retry { delay_ms: millis(fallback) },
    }
}

/// `secs` seconds in milliseconds, capped at `u32::MAX`.
fn to_millis(secs: u32) -> (r: u32)
    ensures
        r == millis(secs),
{
    if secs > u32::MAX / 1000 {
        u32::MAX
    } else {
        secs * 1000
    }
}

/// The updater: it holds the update service and the timing of the loop.
pub struct FirmwareUpdater<T> {
    service: T,
    timeout_ms: u32,
    backoff_ms: u32,
}

impl<T> FirmwareUpdater<T> {
    /// The time allowed for the service to answer, in milliseconds.
    pub closed spec fn timeout(&self) -> u32 {
        self.timeout_ms
    }

    /// The sleep between rounds when the service gives no hint, in milliseconds.
    pub closed spec fn backoff(&self) -> u32 {
        self.backoff_ms
    }

    /// An updater that talks to `service`, timed by `config`.
    pub fn new(service: T, config: UpdaterConfig) -> (r: Self)
        ensures
            r.service() == service,
            r.timeout() == config.timeout_ms,
            r.backoff() == config.backoff_ms,
    {
        FirmwareUpdater { service, timeout_ms: config.timeout_ms, backoff_ms: config.backoff_ms }
    }

    /// The time allowed for the service to answer, in milliseconds.
    pub fn timeout_ms(&self) -> (r: u32)
        ensures
            r == self.timeout(),
    {
        self.timeout_ms
    }

    /// The sleep between rounds when the service gives no hint, in milliseconds.
    pub fn backoff_ms(&self) -> (r: u32)
        ensures
            r == self.backoff(),
    {
        self.backoff_ms
    }

    /// The update service.
    pub closed spec fn service(&self) -> T {
        self.service
    }

    /// The update service, to send it a status.
    pub fn service_mut(&mut self) -> (r: &mut T)
        ensures
            *r == old(self).service(),
            final(self).service() == *final(r),
            final(self).timeout() == old(self).timeout(),
            final(self).backoff() == old(self).backoff(),
    {
        &mut self.service
    }
}

impl<'a> Step<'a> {
    /// The step to take on `reply`, with a backoff of `backoff_ms` between rounds.
    pub fn plan(reply: Reply<'a>, backoff_ms: u32) -> (r: Step<'a>)
        ensures
            r@ == plan(reply@, backoff_ms),
    {
        let fallback = backoff_ms / 1000;
        match reply {
            Reply::Answer(Command::Write { version, offset, data, .. }) => {
                let len = data.len();
                if len <= (u32::MAX - offset) as usize {
                    Step::Write {
                        start: offset == 0,
                        version: version.as_slice(),
                        offset,
                        data: data.as_slice(),
                        delay_ms: to_millis(fallback),
                    }
                } else {
                    Step::Retry { delay_ms: to_millis(fallback) }
                }
            },
            Reply::Answer(Command::Sync { poll, .. }) => {
                let wait = match poll {
                    Some(p) if p > 0 => p,
                    _ => fallback,
                };
                Step::Synced { wait }
            },
            Reply::Answer(Command::Wait { poll, .. }) => {
                let wait = match poll {
                    Some(p) if p > 0 => p,
                    _ => fallback,
                };
                Step::Retry { delay_ms: to_millis(wait) }
            },
            Reply::Answer(Command::Swap { version, checksum, .. }) => Step::Swap {
                version: version.as_slice(),
                checksum: checksum.as_slice(),
            },
            _ => Step::Retry { delay_ms: to_millis(fallback) },
        }
    }

    /// How the run ends after this step, if it does.
    pub fn outcome(&self) -> (r: Option<DeviceStatus>)
        ensures
            r == outcome(self@),
    {
        match self {
            Step::Synced { wait } => Some(DeviceStatus::Synced(Some(*wait))),
            Step::Swap { .. } => Some(DeviceStatus::Updated),
            _ => None,
        }
    }
}

} // verus!

//! What holds of the rounds of an update, over the updater's decisions and the in-memory service.
use vstd::prelude::*;
use crate::protocol::{CommandView, StatusView, UpdateView};
use crate::service::memory::{block_len, serve};
use crate::updater::{
    device_calls, outcome, plan, recorded, status_of, DeviceCall, DeviceStatus, ReplyView,
    StepView, UpdaterView,
};

verus! {

/// After a write of the version being written, at the offset that the status reported, the next
/// status reports the same version at an offset larger by exactly the block's length.
pub proof fn lemma_offset_advances(
    before: UpdaterView,
    reply: ReplyView,
    mtu: u32,
    backoff_ms: u32,
)
    requires
        plan(reply, backoff_ms) is Write,
        before.next == Some(plan(reply, backoff_ms)->Write_version),
        before.offset == plan(reply, backoff_ms)->Write_offset,
    ensures
        ({
            let step = plan(reply, backoff_ms);
            let len = step->Write_data.len();
            let after = recorded(before, step->Write_version, step->Write_offset, len);
            &&& status_of(after, mtu).update == Some(
                UpdateView { version: step->Write_version, offset: (before.offset + len) as u32 },
            )
            &&& after.offset == before.offset + len
            &&& len > 0 ==> after.offset > before.offset
        }),
{
}

/// A write step calls the device's `start` only for the first block of an image, and then before
/// its `write`; it calls `start` at most once.
pub proof fn lemma_start_precedes_write(reply: ReplyView, backoff_ms: u32)
    ensures
        plan(reply, backoff_ms) matches StepView::Write { start, version, offset, data, .. }
            ==> {
            &&& start <==> offset == 0
            &&& device_calls(plan(reply, backoff_ms)) == if offset == 0 {
                seq![DeviceCall::Start { version }, DeviceCall::Write { offset, data }]
            } else {
                seq![DeviceCall::Write { offset, data }]
            }
        },
{
}

/// Against the in-memory service, a round that goes on with an update of the wanted version, past
/// its first block, never calls the device's `start` again.
pub proof fn lemma_in_memory_no_restart(
    version: Seq<u8>,
    firmware: Seq<u8>,
    s: UpdaterView,
    mtu: u32,
    backoff_ms: u32,
)
    requires
        s.current != version,
        s.next == Some(version),
        s.offset > 0,
    ensures
        !(in_memory_step(version, firmware, s, mtu, backoff_ms) matches StepView::Write {
            start: true,
            ..
        }),
{
}

/// Where the service honours the MTU that the device advertised, every block that a step hands
/// to the device is at most that long.
pub proof fn lemma_mtu_respected(reply: ReplyView, mtu: u32, backoff_ms: u32)
    requires
        reply matches ReplyView::Answer(CommandView::Write { data, .. }) ==> data.len() <= mtu,
    ensures
        forall|i: int|
            0 <= i < device_calls(plan(reply, backoff_ms)).len() ==> (#[trigger] device_calls(
                plan(reply, backoff_ms),
            )[i] matches DeviceCall::Write { data, .. } ==> data.len() <= mtu),
{
}

/// The in-memory service never sends a block longer than the MTU in the status.
pub proof fn lemma_in_memory_honors_mtu(version: Seq<u8>, firmware: Seq<u8>, s: StatusView)
    ensures
        serve(version, firmware, s) matches CommandView::Write { data, .. } ==> (s.mtu matches Some(
            m,
        ) ==> data.len() <= m),
{
}

/// Against the in-memory service, every block that a round hands to the device is at most the MTU
/// that the device advertised.
pub proof fn lemma_in_memory_mtu_respected(
    version: Seq<u8>,
    firmware: Seq<u8>,
    s: UpdaterView,
    mtu: u32,
    backoff_ms: u32,
)
    ensures
        ({
            let step = in_memory_step(version, firmware, s, mtu, backoff_ms);
            forall|i: int|
                0 <= i < device_calls(step).len() ==> (#[trigger] device_calls(step)[i] matches DeviceCall::Write {
                    data,
                    ..
                } ==> data.len() <= mtu)
        }),
{
    lemma_in_memory_honors_mtu(version, firmware, status_of(s, mtu));
    let reply = ReplyView::Answer(serve(version, firmware, status_of(s, mtu)));
    lemma_mtu_respected(reply, mtu, backoff_ms);
}

/// The in-memory service answers every status with the correlation id that the status carried.
pub proof fn lemma_correlation_echo(version: Seq<u8>, firmware: Seq<u8>, s: StatusView)
    ensures
        !(serve(version, firmware, s) is Wait),
        serve(version, firmware, s).correlation() == s.correlation_id,
{
}

/// A step ends the run exactly when its last device call is `synced` (the run is then `Synced`)
/// or `update` (the run is then `Updated`); a step that does not end the run calls neither.
pub proof fn lemma_termination_shape(step: StepView)
    ensures
        outcome(step) matches Some(DeviceStatus::Synced(_)) <==> (device_calls(step).len() > 0
            && device_calls(step).last() is Synced),
        outcome(step) == Some(DeviceStatus::Updated) <==> (device_calls(step).len() > 0
            && device_calls(step).last() is Update),
        outcome(step) is None ==> forall|i: int|
            0 <= i < device_calls(step).len() ==> !(#[trigger] device_calls(step)[i] is Synced)
                && !(device_calls(step)[i] is Update),
{
}

/// A retry leaves the state as it was, so the next round sends the same status; and the in-memory
/// service answers the same status with the same command.
pub proof fn lemma_retry_repeats(
    version: Seq<u8>,
    firmware: Seq<u8>,
    s: UpdaterView,
    reply: ReplyView,
    mtu: u32,
    backoff_ms: u32,
    again: StatusView,
)
    requires
        plan(reply, backoff_ms) is Retry,
        again == status_of(s, mtu),
    ensures
        device_calls(plan(reply, backoff_ms)).len() == 0,
        serve(version, firmware, again) == serve(version, firmware, status_of(s, mtu)),
{
}

/// A device already running the wanted version is told it is in sync, even with an empty image:
/// the round calls only `synced`, and no write.
pub proof fn lemma_synced_without_writes(
    version: Seq<u8>,
    firmware: Seq<u8>,
    s: UpdaterView,
    mtu: u32,
    backoff_ms: u32,
)
    requires
        s.current == version,
    ensures
        serve(version, firmware, status_of(s, mtu)) is Sync,
        device_calls(
            in_memory_step(version, firmware, s, mtu, backoff_ms),
        ) == seq![DeviceCall::Synced],
{
}

/// Where the image is a whole number of blocks and the update stands at a block boundary, the
/// in-memory service sends a full block while any is left, and a swap once all are written, so
/// no short block comes last.
pub proof fn lemma_whole_blocks(
    version: Seq<u8>,
    firmware: Seq<u8>,
    s: StatusView,
    mtu: u32,
    blocks: nat,
    done: nat,
)
    requires
        mtu > 0,
        s.version != version,
        s.mtu == Some(mtu),
        (s.update matches Some(u) && u.version == version && u.offset == done * mtu),
        firmware.len() == blocks * mtu,
        done <= blocks,
    ensures
        done < blocks ==> (serve(version, firmware, s) matches CommandView::Write { data, .. }
            && data.len() == mtu),
        done == blocks ==> serve(version, firmware, s) is Swap,
{
    let offset = s.update.unwrap().offset;
    if done < blocks {
        assert(blocks * mtu - done * mtu >= mtu) by (nonlinear_arith)
            requires
                done < blocks,
        ;
        assert(block_len(s.mtu, firmware.len() - offset) == mtu);
    }
}

/// A status that reports an update of another version than the wanted one is answered with the
/// first block of the wanted image, so that the device starts over.
pub proof fn lemma_restart_other_version(version: Seq<u8>, firmware: Seq<u8>, s: StatusView)
    requires
        s.version != version,
        (s.update matches Some(u) && u.version != version),
    ensures
        (serve(version, firmware, s) matches CommandView::Write { offset, data, .. } && offset == 0
            && data == firmware.subrange(0, block_len(s.mtu, firmware.len() as int))),
{
}


/// The step that the updater takes on the in-memory service's answer to the status of `s`.
pub open spec fn in_memory_step(
    version: Seq<u8>,
    firmware: Seq<u8>,
    s: UpdaterView,
    mtu: u32,
    backoff_ms: u32,
) -> StepView {
    plan(ReplyView::Answer(serve(version, firmware, status_of(s, mtu))), backoff_ms)
}

/// The device calls of a run against the in-memory service that wants `version`, made of
/// `firmware`, starting from the state `s`, over at most `rounds` rounds; and how the run ended,
/// if it did within them.
pub open spec fn in_memory_run(
    version: Seq<u8>,
    firmware: Seq<u8>,
    s: UpdaterView,
    mtu: u32,
    backoff_ms: u32,
    rounds: nat,
) -> (Seq<DeviceCall>, Option<DeviceStatus>)
    decreases rounds,
{
    if rounds == 0 {
        (Seq::empty(), None)
    } else {
        let fewer = (rounds - 1) as nat;
        let step = in_memory_step(version, firmware, s, mtu, backoff_ms);
        match step {
            StepView::Write { version: v, offset, data, .. } => {
                let rest = in_memory_run(
                    version,
                    firmware,
                    recorded(s, v, offset, data.len()),
                    mtu,
                    backoff_ms,
                    fewer,
                );
                (device_calls(step) + rest.0, rest.1)
            },
            StepView::Retry { .. } => in_memory_run(
                version,
                firmware,
                s,
                mtu,
                backoff_ms,
                fewer,
            ),
            _ => (device_calls(step), outcome(step)),
        }
    }
}

/// A state that goes on with an update of `version` and will not start it over: something of it
/// has been written, or all of it.
pub open spec fn resuming(version: Seq<u8>, firmware: Seq<u8>, s: UpdaterView) -> bool {
    s.next == Some(version) && (s.offset > 0 || s.offset >= firmware.len())
}

proof fn lemma_write_round_resumes(
    version: Seq<u8>,
    firmware: Seq<u8>,
    s: UpdaterView,
    mtu: u32,
    backoff_ms: u32,
)
    requires
        mtu > 0,
        firmware.len() <= u32::MAX,
        in_memory_step(version, firmware, s, mtu, backoff_ms) is Write,
    ensures
        ({
            let step = in_memory_step(version, firmware, s, mtu, backoff_ms);
            &&& step->Write_version == version
            &&& resuming(
                version,
                firmware,
                recorded(s, step->Write_version, step->Write_offset, step->Write_data.len()),
            )
            &&& resuming(version, firmware, s) ==> !step->Write_start
        }),
{
}

proof fn lemma_resuming_never_starts(
    version: Seq<u8>,
    firmware: Seq<u8>,
    s: UpdaterView,
    mtu: u32,
    backoff_ms: u32,
    rounds: nat,
)
    requires
        mtu > 0,
        firmware.len() <= u32::MAX,
        resuming(version, firmware, s),
    ensures
        forall|i: int|
            0 <= i < in_memory_run(version, firmware, s, mtu, backoff_ms, rounds).0.len() ==> !(
            #[trigger] in_memory_run(version, firmware, s, mtu, backoff_ms, rounds).0[i] is Start),
    decreases rounds,
{
    if rounds > 0 {
        let fewer = (rounds - 1) as nat;
        let step = in_memory_step(version, firmware, s, mtu, backoff_ms);
        let run = in_memory_run(version, firmware, s, mtu, backoff_ms, rounds);
        match step {
            StepView::Write { version: v, offset, data, .. } => {
                lemma_write_round_resumes(version, firmware, s, mtu, backoff_ms);
                let next = recorded(s, v, offset, data.len());
                lemma_resuming_never_starts(version, firmware, next, mtu, backoff_ms, fewer);
                let rest = in_memory_run(version, firmware, next, mtu, backoff_ms, fewer);
                assert forall|i: int| 0 <= i < run.0.len() implies !(#[trigger] run.0[i] is Start)
                by {
                    if i >= device_calls(step).len() {
                        assert(run.0[i] == rest.0[i - device_calls(step).len()]);
                    }
                }
            },
            StepView::Retry { .. } => {
                lemma_resuming_never_starts(version, firmware, s, mtu, backoff_ms, fewer);
            },
            _ => {},
        }
    }
}

/// In a run against the in-memory service, the device's `start` is called at most once, only as
/// the run's first call, and then right before a `write`; a device that advertises a positive MTU
/// is assumed, and an image whose offsets fit a status.
pub proof fn lemma_in_memory_run_starts_once(
    version: Seq<u8>,
    firmware: Seq<u8>,
    s: UpdaterView,
    mtu: u32,
    backoff_ms: u32,
    rounds: nat,
)
    requires
        mtu > 0,
        firmware.len() <= u32::MAX,
    ensures
        ({
            let calls = in_memory_run(version, firmware, s, mtu, backoff_ms, rounds).0;
            &&& forall|i: int| 0 < i < calls.len() ==> !(#[trigger] calls[i] is Start)
            &&& calls.len() > 0 && calls[0] is Start ==> calls.len() > 1 && calls[1] is Write
        }),
    decreases rounds,
{
    if rounds > 0 {
        let fewer = (rounds - 1) as nat;
        let step = in_memory_step(version, firmware, s, mtu, backoff_ms);
        let calls = in_memory_run(version, firmware, s, mtu, backoff_ms, rounds).0;
        match step {
            StepView::Write { version: v, offset, data, .. } => {
                lemma_write_round_resumes(version, firmware, s, mtu, backoff_ms);
                let next = recorded(s, v, offset, data.len());
                lemma_resuming_never_starts(version, firmware, next, mtu, backoff_ms, fewer);
                let rest = in_memory_run(version, firmware, next, mtu, backoff_ms, fewer);
                assert forall|i: int| 0 < i < calls.len() implies !(#[trigger] calls[i] is Start)
                by {
                    if i >= device_calls(step).len() {
                        assert(calls[i] == rest.0[i - device_calls(step).len()]);
                    }
                }
            },
            StepView::Retry { .. } => {
                lemma_in_memory_run_starts_once(version, firmware, s, mtu, backoff_ms, fewer);
            },
            _ => {},
        }
    }
}

/// In a run against the in-memory service, every block handed to the device is at most the MTU
/// that the device advertised.
pub proof fn lemma_in_memory_run_respects_mtu(
    version: Seq<u8>,
    firmware: Seq<u8>,
    s: UpdaterView,
    mtu: u32,
    backoff_ms: u32,
    rounds: nat,
)
    ensures
        ({
            let calls = in_memory_run(version, firmware, s, mtu, backoff_ms, rounds).0;
            forall|i: int|
                0 <= i < calls.len() ==> (#[trigger] calls[i] matches DeviceCall::Write { data, .. }
                    ==> data.len() <= mtu)
        }),
    decreases rounds,
{
    if rounds > 0 {
        let fewer = (rounds - 1) as nat;
        let step = in_memory_step(version, firmware, s, mtu, backoff_ms);
        let calls = in_memory_run(version, firmware, s, mtu, backoff_ms, rounds).0;
        lemma_in_memory_mtu_respected(version, firmware, s, mtu, backoff_ms);
        match step {
            StepView::Write { version: v, offset, data, .. } => {
                let next = recorded(s, v, offset, data.len());
                lemma_in_memory_run_respects_mtu(version, firmware, next, mtu, backoff_ms, fewer);
                let rest = in_memory_run(version, firmware, next, mtu, backoff_ms, fewer);
                assert forall|i: int| 0 <= i < calls.len() implies (#[trigger] calls[i] matches
                    DeviceCall::Write { data, .. } ==> data.len() <= mtu) by {
                    if i >= device_calls(step).len() {
                        assert(calls[i] == rest.0[i - device_calls(step).len()]);
                    } else {
                        assert(calls[i] == device_calls(step)[i]);
                    }
                }
            },
            StepView::Retry { .. } => {
                lemma_in_memory_run_respects_mtu(version, firmware, s, mtu, backoff_ms, fewer);
            },
            _ => {},
        }
    }
}

/// A run against the in-memory service that ends, ends as `Synced` with `synced` as its last
/// device call, or as `Updated` with `update` as its last call; one that has not ended has called
/// neither.
pub proof fn lemma_in_memory_run_ends_cleanly(
    version: Seq<u8>,
    firmware: Seq<u8>,
    s: UpdaterView,
    mtu: u32,
    backoff_ms: u32,
    rounds: nat,
)
    ensures
        ({
            let (calls, end) = in_memory_run(version, firmware, s, mtu, backoff_ms, rounds);
            &&& (end matches Some(DeviceStatus::Synced(_))) <==> (calls.len() > 0
                && calls.last() is Synced)
            &&& end == Some(DeviceStatus::Updated) <==> (calls.len() > 0 && calls.last() is Update)
            &&& end is None ==> forall|i: int|
                0 <= i < calls.len() ==> !(#[trigger] calls[i] is Synced) && !(calls[i] is Update)
        }),
    decreases rounds,
{
    if rounds > 0 {
        let fewer = (rounds - 1) as nat;
        let step = in_memory_step(version, firmware, s, mtu, backoff_ms);
        let (calls, end) = in_memory_run(version, firmware, s, mtu, backoff_ms, rounds);
        lemma_termination_shape(step);
        match step {
            StepView::Write { version: v, offset, data, .. } => {
                let next = recorded(s, v, offset, data.len());
                lemma_in_memory_run_ends_cleanly(version, firmware, next, mtu, backoff_ms, fewer);
                let rest = in_memory_run(version, firmware, next, mtu, backoff_ms, fewer);
                let head = device_calls(step);
                assert(calls == head + rest.0);
                if rest.0.len() > 0 {
                    assert(calls.last() == rest.0.last());
                } else {
                    assert(calls =~= head);
                }
                assert forall|i: int|
                    0 <= i < calls.len() && end is None implies !(#[trigger] calls[i] is Synced)
                        && !(calls[i] is Update) by {
                    if i >= head.len() {
                        assert(calls[i] == rest.0[i - head.len()]);
                    } else {
                        assert(calls[i] == head[i]);
                    }
                }
            },
            StepView::Retry { .. } => {
                lemma_in_memory_run_ends_cleanly(version, firmware, s, mtu, backoff_ms, fewer);
            },
            _ => {},
        }
    }
}


proof fn lemma_resumed_run_updates(
    version: Seq<u8>,
    firmware: Seq<u8>,
    s: UpdaterView,
    mtu: u32,
    backoff_ms: u32,
    rounds: nat,
)
    requires
        mtu > 0,
        firmware.len() <= u32::MAX,
        s.current != version,
        s.next == Some(version),
        s.offset <= firmware.len() ==> rounds >= firmware.len() - s.offset + 1,
        rounds >= 1,
    ensures
        in_memory_run(version, firmware, s, mtu, backoff_ms, rounds).1 == Some(
            DeviceStatus::Updated,
        ),
    decreases rounds,
{
    let fewer = (rounds - 1) as nat;
    let step = in_memory_step(version, firmware, s, mtu, backoff_ms);
    if s.offset < firmware.len() {
        let next = recorded(s, version, s.offset, step->Write_data.len());
        assert(step->Write_data.len() >= 1);
        lemma_resumed_run_updates(version, firmware, next, mtu, backoff_ms, fewer);
    }
}

/// Against the in-memory service, a device that runs another version than the wanted one is
/// updated: within as many rounds as the image has bytes, and two more, the run ends as `Updated`
/// (for a device that advertises a positive MTU, and an image whose offsets fit a status).
pub proof fn lemma_in_memory_run_updates(
    version: Seq<u8>,
    firmware: Seq<u8>,
    s: UpdaterView,
    mtu: u32,
    backoff_ms: u32,
    rounds: nat,
)
    requires
        mtu > 0,
        firmware.len() <= u32::MAX,
        s.current != version,
        rounds >= firmware.len() + 2,
    ensures
        in_memory_run(version, firmware, s, mtu, backoff_ms, rounds).1 == Some(
            DeviceStatus::Updated,
        ),
{
    let fewer = (rounds - 1) as nat;
    if s.next == Some(version) {
        lemma_resumed_run_updates(version, firmware, s, mtu, backoff_ms, rounds);
    } else {
        let step = in_memory_step(version, firmware, s, mtu, backoff_ms);
        let next = recorded(s, version, 0, step->Write_data.len());
        lemma_resumed_run_updates(version, firmware, next, mtu, backoff_ms, fewer);
    }
}

/// Against the in-memory service, a device that runs the wanted version is told so in the first
/// round, and the run ends as `Synced` after one call of `synced`.
pub proof fn lemma_in_memory_run_synced(
    version: Seq<u8>,
    firmware: Seq<u8>,
    s: UpdaterView,
    mtu: u32,
    backoff_ms: u32,
    rounds: nat,
)
    requires
        s.current == version,
        rounds >= 1,
    ensures
        in_memory_run(version, firmware, s, mtu, backoff_ms, rounds) == (
            seq![DeviceCall::Synced],
            Some(DeviceStatus::Synced(Some((backoff_ms / 1000) as u32))),
        ),
{
}

/// Against the in-memory service, a round that goes on with the wanted version writes at exactly
/// the offset that the status reported, so after it the status reports that offset plus the
/// block's length.
pub proof fn lemma_in_memory_writes_where_reported(
    version: Seq<u8>,
    firmware: Seq<u8>,
    s: UpdaterView,
    mtu: u32,
    backoff_ms: u32,
)
    requires
        s.current != version,
        s.next == Some(version),
        s.offset < firmware.len(),
        firmware.len() <= u32::MAX,
    ensures
        ({
            let step = in_memory_step(version, firmware, s, mtu, backoff_ms);
            &&& step matches StepView::Write { offset, .. } && offset == s.offset
            &&& recorded(s, version, s.offset, step->Write_data.len()).offset == s.offset
                + step->Write_data.len()
            &&& step->Write_data == firmware.subrange(
                s.offset as int,
                s.offset + step->Write_data.len(),
            )
        }),
{
}

} // verus!

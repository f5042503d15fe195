use embedded_update::device::Simulator;
use embedded_update::service::InMemory;
use embedded_update::{
    Command, DeviceStatus, Error, FirmwareStatus, FirmwareUpdater, FirmwareVersion, Reply, Status, Step,
    UpdateService, UpdaterConfig, UpdaterState, VersionBuf,
};

#[derive(Debug, PartialEq, Clone)]
enum Call {
    Start(Vec<u8>),
    Write(u32, Vec<u8>),
    Synced,
    Update(Vec<u8>),
    Sleep(u32),
}

fn version(bytes: &[u8]) -> VersionBuf {
    <VersionBuf as FirmwareVersion>::from_slice(bytes).unwrap()
}

/// Runs the update loop to its end against a simulator, recording every device call and sleep.
fn run(
    updater: &mut FirmwareUpdater<InMemory<'_>>,
    device: &mut Simulator,
    mtu: u32,
    calls: &mut Vec<Call>,
) -> Result<DeviceStatus, Error<(), ()>> {
    let backoff = updater.backoff_ms();
    let mut state = UpdaterState::new(device.status());
    for _ in 0..10_000 {
        let mut next = state.duplicate();
        let outcome;
        {
            let status = state.status(mtu);
            let reply = match updater.service_mut().request(&status) {
                Ok(c) => Reply::Answer(c),
                Err(_) => Reply::Failed,
            };
            let step = Step::plan(reply, backoff);
            outcome = step.outcome();
            match step {
                Step::Write { start, version, offset, data, delay_ms } => {
                    if start {
                        device.start(version);
                        calls.push(Call::Start(version.to_vec()));
                    }
                    device.write(offset, data);
                    calls.push(Call::Write(offset, data.to_vec()));
                    next.record_write::<(), ()>(version, offset, data.len())?;
                    calls.push(Call::Sleep(delay_ms));
                }
                Step::Synced { .. } => {
                    device.synced();
                    calls.push(Call::Synced);
                }
                Step::Swap { version, checksum } => {
                    device.update(version, checksum);
                    calls.push(Call::Update(version.to_vec()));
                }
                Step::Retry { delay_ms } => calls.push(Call::Sleep(delay_ms)),
            }
        }
        if let Some(done) = outcome {
            return Ok(done);
        }
        state = next;
    }
    panic!("the update loop did not end");
}

fn writes(calls: &[Call]) -> Vec<(u32, Vec<u8>)> {
    calls
        .iter()
        .filter_map(|c| match c {
            Call::Write(o, d) => Some((*o, d.clone())),
            _ => None,
        })
        .collect()
}

#[test]
fn test_update_protocol_synced() {
    let service = InMemory::new(b"1", &[1; 1024]);
    let mut device = Simulator::new(b"1");
    let mut updater = FirmwareUpdater::new(service, UpdaterConfig { timeout_ms: 1_000, backoff_ms: 10000 });
    let mut calls = Vec::new();
    let status = run(&mut updater, &mut device, Simulator::MTU as u32, &mut calls).unwrap();
    assert_eq!(status, DeviceStatus::Synced(Some(10)));
}

#[test]
fn test_update_protocol_updated() {
    let service = InMemory::new(b"2", &[1; 1024]);
    let mut device = Simulator::new(b"1");
    let mut updater = FirmwareUpdater::new(service, UpdaterConfig { timeout_ms: 1_000, backoff_ms: 0 });
    let mut calls = Vec::new();
    let status = run(&mut updater, &mut device, Simulator::MTU as u32, &mut calls).unwrap();
    assert_eq!(status, DeviceStatus::Updated);
}

#[test]
fn already_synced_makes_no_writes() {
    let firmware = [1u8; 1024];
    let mut updater = FirmwareUpdater::new(InMemory::new(b"1", &firmware), UpdaterConfig { timeout_ms: 1000, backoff_ms: 0 });
    let mut device = Simulator::new(b"1");
    let mut calls = Vec::new();
    let status = run(&mut updater, &mut device, Simulator::MTU as u32, &mut calls).unwrap();
    assert_eq!(status, DeviceStatus::Synced(Some(0)));
    assert_eq!(calls, vec![Call::Synced]);
    assert_eq!(device.version(), b"1");
}

#[test]
fn cold_update_writes_four_blocks_then_swaps() {
    let firmware = [1u8; 1024];
    let mut updater = FirmwareUpdater::new(InMemory::new(b"2", &firmware), UpdaterConfig { timeout_ms: 1000, backoff_ms: 0 });
    let mut device = Simulator::new(b"1");
    let mut calls = Vec::new();
    let status = run(&mut updater, &mut device, Simulator::MTU as u32, &mut calls).unwrap();
    assert_eq!(status, DeviceStatus::Updated);
    let mut expected = vec![Call::Start(b"2".to_vec())];
    for offset in [0u32, 256, 512, 768] {
        expected.push(Call::Write(offset, vec![1u8; 256]));
        expected.push(Call::Sleep(0));
    }
    expected.push(Call::Update(b"2".to_vec()));
    assert_eq!(calls, expected);
    assert_eq!(device.version(), b"2");
}

#[test]
fn cold_update_offsets_advance_by_block_length() {
    let firmware: Vec<u8> = (0..1000u32).map(|i| i as u8).collect();
    let mut updater = FirmwareUpdater::new(InMemory::new(b"2", &firmware), UpdaterConfig { timeout_ms: 1000, backoff_ms: 0 });
    let mut device = Simulator::new(b"1");
    let mut calls = Vec::new();
    run(&mut updater, &mut device, 300, &mut calls).unwrap();
    let w = writes(&calls);
    let mut expected_offset = 0u32;
    for (offset, data) in &w {
        assert_eq!(*offset, expected_offset);
        assert!(data.len() <= 300);
        assert_eq!(&data[..], &firmware[*offset as usize..*offset as usize + data.len()]);
        expected_offset += data.len() as u32;
    }
    assert_eq!(expected_offset, 1000);
    assert_eq!(w.len(), 4);
    assert_eq!(w[3].1.len(), 100);
}

#[test]
fn start_comes_once_and_before_the_first_write() {
    let firmware = [9u8; 700];
    let mut updater = FirmwareUpdater::new(InMemory::new(b"2", &firmware), UpdaterConfig { timeout_ms: 1000, backoff_ms: 0 });
    let mut device = Simulator::new(b"1");
    let mut calls = Vec::new();
    run(&mut updater, &mut device, 128, &mut calls).unwrap();
    let starts: Vec<usize> = calls.iter().enumerate().filter(|(_, c)| matches!(c, Call::Start(_))).map(|(i, _)| i).collect();
    let first_write = calls.iter().position(|c| matches!(c, Call::Write(..))).unwrap();
    assert_eq!(starts, vec![0]);
    assert!(starts[0] < first_write);
    assert!(matches!(calls.last(), Some(Call::Update(_))));
}

#[test]
fn empty_firmware_with_matching_version_syncs_at_once() {
    let mut updater = FirmwareUpdater::new(InMemory::new(b"1", &[]), UpdaterConfig { timeout_ms: 1000, backoff_ms: 2000 });
    let mut device = Simulator::new(b"1");
    let mut calls = Vec::new();
    let status = run(&mut updater, &mut device, Simulator::MTU as u32, &mut calls).unwrap();
    assert_eq!(status, DeviceStatus::Synced(Some(2)));
    assert_eq!(calls, vec![Call::Synced]);
}

#[test]
fn empty_firmware_of_another_version_swaps_after_an_empty_write() {
    let mut updater = FirmwareUpdater::new(InMemory::new(b"2", &[]), UpdaterConfig { timeout_ms: 1000, backoff_ms: 0 });
    let mut device = Simulator::new(b"1");
    let mut calls = Vec::new();
    let status = run(&mut updater, &mut device, Simulator::MTU as u32, &mut calls).unwrap();
    assert_eq!(status, DeviceStatus::Updated);
    assert_eq!(
        calls,
        vec![Call::Start(b"2".to_vec()), Call::Write(0, vec![]), Call::Sleep(0), Call::Update(b"2".to_vec())]
    );
}

#[test]
fn whole_blocks_end_with_a_full_write_then_swap() {
    let firmware = [5u8; 512];
    let mut updater = FirmwareUpdater::new(InMemory::new(b"2", &firmware), UpdaterConfig { timeout_ms: 1000, backoff_ms: 0 });
    let mut device = Simulator::new(b"1");
    let mut calls = Vec::new();
    run(&mut updater, &mut device, 128, &mut calls).unwrap();
    let w = writes(&calls);
    assert_eq!(w.len(), 4);
    assert!(w.iter().all(|(_, d)| d.len() == 128));
    assert_eq!(calls.last(), Some(&Call::Update(b"2".to_vec())));
    assert_eq!(calls[calls.len() - 2], Call::Sleep(0));
    assert_eq!(calls[calls.len() - 3], Call::Write(384, vec![5u8; 128]));
}

#[test]
fn other_version_in_progress_restarts_at_zero() {
    let firmware: Vec<u8> = (0..200u32).map(|i| i as u8).collect();
    let service = InMemory::new(b"2", &firmware);
    let status = Status::update(b"1", Some(64), 100, b"3", Some(7));
    let command = service.respond(&status);
    match &command {
        Command::Write { version, offset, data, correlation_id } => {
            assert_eq!(version.as_slice(), b"2");
            assert_eq!(*offset, 0);
            assert_eq!(data.as_slice(), &firmware[..64]);
            assert_eq!(*correlation_id, Some(7));
        }
        other => panic!("expected a write, got {:?}", other),
    }
    match Step::plan(Reply::Answer(command), 1000) {
        Step::Write { start, offset, .. } => {
            assert!(start);
            assert_eq!(offset, 0);
        }
        _ => panic!("expected a write step"),
    }
}

#[test]
fn poll_hint_is_returned() {
    let step = Step::plan(Reply::Answer(Command::new_sync(b"1", Some(10), None)), 1000);
    assert_eq!(step.outcome(), Some(DeviceStatus::Synced(Some(10))));
    let step = Step::plan(Reply::Answer(Command::new_sync(b"1", Some(0), None)), 3500);
    assert_eq!(step.outcome(), Some(DeviceStatus::Synced(Some(3))));
    let step = Step::plan(Reply::Answer(Command::new_sync(b"1", None, None)), 999);
    assert_eq!(step.outcome(), Some(DeviceStatus::Synced(Some(0))));
}

#[test]
fn wait_sleeps_for_the_poll_hint() {
    match Step::plan(Reply::Answer(Command::new_wait(Some(10), None)), 1000) {
        Step::Retry { delay_ms } => assert_eq!(delay_ms, 10_000),
        _ => panic!("expected a retry"),
    }
    match Step::plan(Reply::Answer(Command::new_wait(None, None)), 2500) {
        Step::Retry { delay_ms } => assert_eq!(delay_ms, 2_000),
        _ => panic!("expected a retry"),
    }
    match Step::plan(Reply::Answer(Command::new_wait(Some(u32::MAX), None)), 0) {
        Step::Retry { delay_ms } => assert_eq!(delay_ms, u32::MAX),
        _ => panic!("expected a retry"),
    }
}

#[test]
fn resume_after_partial_does_not_start() {
    let firmware: Vec<u8> = (0..1024u32).map(|i| (i % 251) as u8).collect();
    let service = InMemory::new(b"2", &firmware);
    let state = UpdaterState::new(FirmwareStatus {
        current_version: version(b"1"),
        next_offset: 512,
        next_version: Some(version(b"2")),
    });
    let status = state.status(128);
    assert_eq!(status.version.as_slice(), b"1");
    assert_eq!(status.mtu, Some(128));
    let update = status.update.as_ref().unwrap();
    assert_eq!(update.version.as_slice(), b"2");
    assert_eq!(update.offset, 512);
    match Step::plan(Reply::Answer(service.respond(&status)), 1000) {
        Step::Write { start, version, offset, data, .. } => {
            assert!(!start);
            assert_eq!(version, b"2");
            assert_eq!(offset, 512);
            assert_eq!(data, &firmware[512..640]);
        }
        _ => panic!("expected a write step"),
    }
}

#[test]
fn service_timeout_then_recovery() {
    let state = UpdaterState::new(FirmwareStatus { current_version: version(b"1"), next_offset: 0, next_version: None });
    let first = state.status(256);
    match Step::plan(Reply::TimedOut, 1000) {
        Step::Retry { delay_ms } => assert_eq!(delay_ms, 1000),
        _ => panic!("expected a retry"),
    }
    let again = state.status(256);
    assert_eq!(first.version.as_slice(), again.version.as_slice());
    assert_eq!(first.mtu, again.mtu);
    assert!(again.update.is_none());
    let service = InMemory::new(b"1", &[1; 16]);
    let step = Step::plan(Reply::Answer(service.respond(&again)), 1000);
    assert_eq!(step.outcome(), Some(DeviceStatus::Synced(Some(1))));
}

#[test]
fn service_failure_is_retried_after_backoff() {
    match Step::plan(Reply::Failed, 4999) {
        Step::Retry { delay_ms } => assert_eq!(delay_ms, 4000),
        _ => panic!("expected a retry"),
    }
}

#[test]
fn swap_ends_the_run_as_updated() {
    let step = Step::plan(Reply::Answer(Command::new_swap(b"2", &[0; 32], None)), 0);
    match &step {
        Step::Swap { version, checksum } => {
            assert_eq!(*version, b"2");
            assert_eq!(checksum.len(), 32);
        }
        _ => panic!("expected a swap"),
    }
    assert_eq!(step.outcome(), Some(DeviceStatus::Updated));
}

#[test]
fn write_past_the_largest_offset_is_retried() {
    let data = [0u8; 10];
    match Step::plan(Reply::Answer(Command::new_write(b"2", u32::MAX - 5, &data, None)), 1000) {
        Step::Retry { delay_ms } => assert_eq!(delay_ms, 1000),
        _ => panic!("expected a retry"),
    }
}

#[test]
fn version_too_long_for_the_device_is_a_decode_error() {
    let mut state = UpdaterState::new(FirmwareStatus { current_version: version(b"1"), next_offset: 0, next_version: None });
    let r = state.record_write::<(), ()>(&[b'v'; 17], 0, 4);
    assert!(matches!(r, Err(Error::DecodeVersion)));
    assert!(state.status(8).update.is_none());
    state.record_write::<(), ()>(&[b'v'; 16], 0, 4).unwrap();
    let status = state.status(8);
    let update = status.update.as_ref().unwrap();
    assert_eq!(update.offset, 4);
    assert_eq!(update.version.as_slice(), &[b'v'; 16]);
}

#[test]
fn in_memory_answers_the_same_status_the_same_way() {
    let firmware: Vec<u8> = (0..300u32).map(|i| i as u8).collect();
    let mut service = InMemory::new(b"2", &firmware);
    let status = Status::update(b"1", Some(100), 100, b"2", Some(3));
    let a = format!("{:?}", service.request(&status).unwrap());
    let b = format!("{:?}", service.request(&status).unwrap());
    assert_eq!(a, b);
}

#[test]
fn in_memory_echoes_the_correlation_id() {
    let firmware = [1u8; 10];
    let service = InMemory::new(b"2", &firmware);
    let sync = service.respond(&Status::first(b"2", None, Some(42)));
    assert!(matches!(sync, Command::Sync { correlation_id: Some(42), poll: None, .. }));
    let write = service.respond(&Status::first(b"1", None, Some(43)));
    assert!(matches!(write, Command::Write { correlation_id: Some(43), offset: 0, .. }));
    let swap = service.respond(&Status::update(b"1", None, 10, b"2", Some(44)));
    match swap {
        Command::Swap { correlation_id, checksum, version } => {
            assert_eq!(correlation_id, Some(44));
            assert_eq!(checksum.as_slice(), &[0u8; 32]);
            assert_eq!(version.as_slice(), b"2");
        }
        other => panic!("expected a swap, got {:?}", other),
    }
}

#[test]
fn in_memory_uses_default_block_size_without_mtu() {
    let firmware = [3u8; 1000];
    let service = InMemory::new(b"2", &firmware);
    match service.respond(&Status::first(b"1", None, None)) {
        Command::Write { data, .. } => assert_eq!(data.len(), 128),
        other => panic!("expected a write, got {:?}", other),
    }
    match service.respond(&Status::update(b"1", None, 900, b"2", None)) {
        Command::Write { data, offset, .. } => {
            assert_eq!(offset, 900);
            assert_eq!(data.len(), 100);
        }
        other => panic!("expected a write, got {:?}", other),
    }
}

#[test]
fn default_config() {
    let c = UpdaterConfig::default();
    assert_eq!(c.timeout_ms, 15_000);
    assert_eq!(c.backoff_ms, 1_000);
    let u = FirmwareUpdater::new(InMemory::new(b"1", &[]), UpdaterConfig::default());
    assert_eq!(u.timeout_ms(), 15_000);
    assert_eq!(u.backoff_ms(), 1_000);
}

#[test]
fn simulator_keeps_its_version() {
    let mut device = Simulator::new(b"abc");
    assert_eq!(device.version(), b"abc");
    let status = device.status();
    assert_eq!(status.current_version.as_slice(), b"abc");
    assert_eq!(status.next_offset, 0);
    assert!(status.next_version.is_none());
    device.start(b"x");
    device.write(0, &[1, 2]);
    device.synced();
    assert_eq!(device.version(), b"abc");
    device.update(b"0123456789abcdef", &[]);
    assert_eq!(device.version(), b"0123456789abcdef");
}

#[test]
fn std_vec_versions() {
    let v = <Vec<u8> as FirmwareVersion>::from_slice(&[7u8; 40]).unwrap();
    assert_eq!(v.as_bytes(), &[7u8; 40]);
    assert_eq!(v.duplicate(), v);
    assert!(<VersionBuf as FirmwareVersion>::from_slice(&[7u8; 17]).is_err());
    assert_eq!(version(b"12").as_bytes(), b"12");
    assert_eq!(version(b"12").duplicate().as_bytes(), b"12");
}

#[test]
fn tiny_mtu_still_updates_with_one_start() {
    let firmware = [4u8; 5];
    let mut updater = FirmwareUpdater::new(InMemory::new(b"2", &firmware), UpdaterConfig { timeout_ms: 1000, backoff_ms: 0 });
    let mut device = Simulator::new(b"1");
    let mut calls = Vec::new();
    let status = run(&mut updater, &mut device, 1, &mut calls).unwrap();
    assert_eq!(status, DeviceStatus::Updated);
    assert_eq!(calls.iter().filter(|c| matches!(c, Call::Start(_))).count(), 1);
    assert_eq!(calls[0], Call::Start(b"2".to_vec()));
    let w = writes(&calls);
    assert_eq!(w, (0..5u32).map(|o| (o, vec![4u8])).collect::<Vec<_>>());
    assert_eq!(calls.last(), Some(&Call::Update(b"2".to_vec())));
}

#[test]
fn firmware_status_copies() {
    let status = FirmwareStatus { current_version: version(b"1"), next_offset: 9, next_version: Some(version(b"2")) };
    let copy = status.duplicate();
    assert_eq!(copy.current_version.as_bytes(), b"1");
    assert_eq!(copy.next_offset, 9);
    assert_eq!(copy.next_version.unwrap().as_bytes(), b"2");
}

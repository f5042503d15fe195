use std::collections::VecDeque;

use embedded_update::codec::{decode_command, decode_status};
use embedded_update::device::serial::{Serial, SerialError};
use embedded_update::service::serial::SerialError as LinkError;
use embedded_update::device::Simulator;
use embedded_update::service::serial::{read_reply, request_frame};
use embedded_update::service::InMemory;
use embedded_update::{
    CodecError, Command, DeviceStatus, FirmwareUpdater, FirmwareVersion, Reply, Status, Step, UpdateService,
    UpdaterConfig, UpdaterState, FRAME_SIZE,
};

type Link = VecDeque<Vec<u8>>;

/// Runs an updater that serves `service` to the stand-in for a device across the link: it reads
/// the peer's status from `inbound` once, then sends every device call to `outbound`.
fn run_front(service: InMemory<'_>, inbound: &mut Link, outbound: &mut Link) -> DeviceStatus {
    let mut updater = FirmwareUpdater::new(service, UpdaterConfig::default());
    let backoff = updater.backoff_ms();
    let mtu = Serial::MTU as u32;
    let mut front = Serial::new();
    let initial = front.receive_status::<()>(&inbound.pop_front().unwrap()).unwrap();
    let mut state = UpdaterState::new(initial);
    loop {
        let mut next = state.duplicate();
        let outcome;
        {
            let status = state.status(mtu);
            let reply = match updater.service_mut().request(&status) {
                Ok(c) => Reply::Answer(c),
                Err(_) => Reply::Failed,
            };
            let step = Step::plan(reply, backoff);
            outcome = step.outcome();
            match step {
                Step::Write { start, version, offset, data, .. } => {
                    if start {
                        front.start::<()>(version).unwrap();
                    }
                    outbound.push_back(front.write_frame::<()>(offset, data).unwrap());
                    next.record_write::<(), ()>(version, offset, data.len()).unwrap();
                }
                Step::Synced { .. } => outbound.push_back(front.synced_frame::<()>().unwrap()),
                Step::Swap { version, checksum } => {
                    outbound.push_back(front.update_frame::<()>(version, checksum).unwrap())
                }
                Step::Retry { .. } => {}
            }
        }
        if let Some(done) = outcome {
            return done;
        }
        state = next;
    }
}

/// The service side of the link: each request sends the status in a frame and reads the answer
/// from the next frame that came back.
struct LinkService<'l> {
    outbound: &'l mut Link,
    inbound: &'l mut Link,
    rx: Vec<u8>,
}

impl<'l> UpdateService for LinkService<'l> {
    type Error = LinkError<(), CodecError>;

    fn request<'m>(&'m mut self, status: &'m Status<'m>) -> Result<Command<'m>, Self::Error> {
        let frame = request_frame::<()>(status)?;
        self.outbound.push_back(frame);
        self.rx = self.inbound.pop_front().ok_or(LinkError::Transport(()))?;
        read_reply::<()>(&self.rx)
    }
}

#[test]
fn test_serial_chain() {
    let firmware = [1u8; 1024];
    let mut to_front: Link = VecDeque::new();
    let mut to_device: Link = VecDeque::new();
    let mut device = Simulator::new(b"1");

    // The device's first status crosses the link before the front starts.
    let first = UpdaterState::new(device.status());
    to_front.push_back(request_frame::<()>(&first.status(Simulator::MTU as u32)).unwrap());
    let r1 = run_front(InMemory::new(b"2", &firmware), &mut to_front, &mut to_device);
    assert_eq!(to_device.len(), 3);

    let mut service = LinkService { outbound: &mut to_front, inbound: &mut to_device, rx: Vec::new() };
    let mut state = UpdaterState::new(device.status());
    let mtu = Simulator::MTU as u32;
    let mut writes = Vec::new();
    let r2 = loop {
        let mut next = state.duplicate();
        let outcome;
        {
            let status = state.status(mtu);
            let reply = match service.request(&status) {
                Ok(c) => Reply::Answer(c),
                Err(_) => Reply::Failed,
            };
            let step = Step::plan(reply, 1000);
            outcome = step.outcome();
            match step {
                Step::Write { start, version, offset, data, .. } => {
                    if start {
                        device.start(version);
                    }
                    device.write(offset, data);
                    writes.push((offset, data.len()));
                    next.record_write::<(), ()>(version, offset, data.len()).unwrap();
                }
                Step::Synced { .. } => device.synced(),
                Step::Swap { version, checksum } => device.update(version, checksum),
                Step::Retry { .. } => panic!("the link ran dry"),
            }
        }
        if let Some(done) = outcome {
            break done;
        }
        state = next;
    };
    assert_eq!(r1, DeviceStatus::Updated);
    assert_eq!(r2, DeviceStatus::Updated);
    assert_eq!(writes, vec![(0, 968), (968, 56)]);
    assert_eq!(device.version(), b"2");
}

#[test]
fn front_takes_in_the_peer_status() {
    let mut front = Serial::new();
    let status = Status::update(b"1", Some(256), 512, b"2", None);
    let frame = request_frame::<()>(&status).unwrap();
    assert_eq!(frame.len(), FRAME_SIZE);
    let s = front.receive_status::<()>(&frame).unwrap();
    assert_eq!(s.current_version.as_bytes(), b"1");
    assert_eq!(s.next_offset, 512);
    assert_eq!(s.next_version.as_ref().unwrap().as_bytes(), b"2");

    // A later status without an update keeps what was known of it.
    let frame = request_frame::<()>(&Status::first(b"3", None, None)).unwrap();
    let s = front.receive_status::<()>(&frame).unwrap();
    assert_eq!(s.current_version.as_bytes(), b"3");
    assert_eq!(s.next_offset, 512);
    assert_eq!(s.next_version.as_ref().unwrap().as_bytes(), b"2");
}

#[test]
fn front_errors() {
    let mut front = Serial::new();
    assert!(matches!(front.receive_status::<()>(&[7, 7]), Err(SerialError::Codec(CodecError::Malformed))));
    let long = [b'v'; 17];
    let frame = request_frame::<()>(&Status::first(&long, None, None)).unwrap();
    assert!(matches!(front.receive_status::<()>(&frame), Err(SerialError::Other)));
    assert!(matches!(front.start::<()>(&long), Err(SerialError::Other)));
    assert!(matches!(front.write_frame::<()>(0, &[1]), Err(SerialError::Other)));
    front.start::<()>(b"2").unwrap();
    assert!(matches!(front.write_frame::<()>(0, &[0; 1100]), Err(SerialError::Codec(CodecError::BufferFull))));
}

#[test]
fn front_sends_commands_in_frames() {
    let mut front = Serial::new();
    let frame = request_frame::<()>(&Status::first(b"1", Some(8), None)).unwrap();
    front.receive_status::<()>(&frame).unwrap();
    front.start::<()>(b"2").unwrap();
    let f = front.write_frame::<()>(0, &[1, 2, 3]).unwrap();
    assert_eq!(f.len(), FRAME_SIZE);
    match decode_command(&f).unwrap() {
        Command::Write { version, offset, data, correlation_id } => {
            assert_eq!(version.as_slice(), b"2");
            assert_eq!(offset, 0);
            assert_eq!(data.as_slice(), &[1, 2, 3]);
            assert_eq!(correlation_id, None);
        }
        other => panic!("expected a write, got {:?}", other),
    }
    let f = front.synced_frame::<()>().unwrap();
    assert!(matches!(decode_command(&f).unwrap(), Command::Sync { version, .. } if version.as_slice() == b"1"));
    let f = front.update_frame::<()>(b"2", &[9; 4]).unwrap();
    assert!(matches!(decode_command(&f).unwrap(), Command::Swap { checksum, .. } if checksum.as_slice() == [9; 4]));
}

#[test]
fn service_side_frames() {
    let status = Status::first(b"1", Some(256), Some(4));
    let f = request_frame::<()>(&status).unwrap();
    let back = decode_status(&f).unwrap();
    assert_eq!(back.correlation_id, Some(4));
    let big = [0u8; 2000];
    assert!(matches!(
        request_frame::<()>(&Status::first(&big, None, None)),
        Err(LinkError::Codec(CodecError::BufferFull))
    ));
    assert!(matches!(read_reply::<()>(&[9]), Err(LinkError::Codec(CodecError::Malformed))));
    let reply = read_reply::<()>(&[0, 0, 1, 10]).unwrap();
    assert!(matches!(reply, Command::Wait { correlation_id: None, poll: Some(10) }));
}

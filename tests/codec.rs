use embedded_update::codec::{
    command_frame, decode_command, decode_status, encode_command, encode_status, status_frame,
};
use embedded_update::{Bytes, CodecError, Command, Status, FRAME_SIZE};

fn encode<'a>(s: &Status<'a>) -> Vec<u8> {
    encode_status(s, FRAME_SIZE).unwrap()
}

fn encode_c<'a>(c: &Command<'a>) -> Vec<u8> {
    encode_command(c, FRAME_SIZE).unwrap()
}

#[test]
fn deserialize_ref() {
    let s = Command::new_write(b"1234", 0, &[1, 2, 3, 4], None);
    let out = encode_c(&s);
    let s = decode_command(&out).unwrap();
    match s {
        Command::Write { version, correlation_id, offset, data } => {
            assert_eq!(version.as_slice(), b"1234");
            assert_eq!(correlation_id, None);
            assert_eq!(offset, 0);
            assert_eq!(data.as_slice(), &[1, 2, 3, 4]);
        }
        other => panic!("expected a write, got {:?}", other),
    }
}

#[test]
fn serialized_status_size() {
    // 1 byte version, 4 byte payload, 4 byte checksum
    let version = &[1];
    let mtu = Some(4);
    let cid = None;
    let offset = 0;
    let next_version = &[2];

    let s = Status::first(version, mtu, cid);
    let first = encode(&s);

    let s = Status::update(version, mtu, offset, next_version, cid);
    let update = encode(&s);
    assert_eq!(first, vec![1, 1, 1, 4, 0, 0]);
    assert_eq!(update, vec![1, 1, 1, 4, 0, 1, 1, 2, 0]);
}

#[test]
fn serialized_command_size() {
    // 1 byte version, 4 byte payload, 4 byte checksum
    let version = &[1];
    let payload = &[1, 2, 3, 4];
    let checksum = &[1, 2, 3, 4];

    let s = Command::new_write(version, 0, payload, None);
    let write = encode_c(&s);

    let s = Command::new_wait(Some(1), None);
    let wait = encode_c(&s);

    let s = Command::new_sync(version, Some(1), None);
    let sync = encode_c(&s);

    let s = Command::new_swap(version, checksum, None);
    let swap = encode_c(&s);
    assert_eq!(write, vec![2, 1, 1, 0, 0, 4, 1, 2, 3, 4]);
    assert_eq!(wait, vec![0, 0, 1, 1]);
    assert_eq!(sync, vec![1, 1, 1, 0, 1, 1]);
    assert_eq!(swap, vec![3, 1, 1, 0, 4, 1, 2, 3, 4]);
}

#[test]
fn numbers_are_varints() {
    let s = Status::update(b"", Some(300), u32::MAX, b"", Some(128));
    assert_eq!(encode(&s), vec![0, 1, 0xAC, 0x02, 1, 0x80, 0x01, 1, 0, 0xFF, 0xFF, 0xFF, 0xFF, 0x0F]);
    let bytes = encode(&s);
    let back = decode_status(&bytes).unwrap();
    assert_eq!(back.mtu, Some(300));
    assert_eq!(back.correlation_id, Some(128));
    assert_eq!(back.update.unwrap().offset, u32::MAX);
}

#[test]
fn status_round_trip_with_padding() {
    let s = Status::update(b"1.0.0", Some(968), 4096, b"1.1.0", Some(77));
    let mut bytes = encode(&s);
    bytes.extend_from_slice(&[0xEE; 20]);
    let back = decode_status(&bytes).unwrap();
    assert_eq!(back.version.as_slice(), b"1.0.0");
    assert_eq!(back.mtu, Some(968));
    assert_eq!(back.correlation_id, Some(77));
    let u = back.update.unwrap();
    assert_eq!(u.version.as_slice(), b"1.1.0");
    assert_eq!(u.offset, 4096);

    let empty = Status::first(b"", None, None);
    let bytes = encode(&empty);
    let back = decode_status(&bytes).unwrap();
    assert_eq!(back.version.as_slice(), b"");
    assert_eq!(back.mtu, None);
    assert_eq!(back.correlation_id, None);
    assert!(back.update.is_none());
}

#[test]
fn command_round_trip_every_kind() {
    let data: Vec<u8> = (0..=255u8).collect();
    let commands = [
        Command::new_wait(None, None),
        Command::new_wait(Some(10), Some(1)),
        Command::new_sync(b"", None, None),
        Command::new_sync(b"v2", Some(60), Some(9)),
        Command::new_write(b"v2", 1_000_000, &data, Some(5)),
        Command::new_write(b"", 0, &[], None),
        Command::new_swap(b"v2", &[0; 32], None),
        Command::new_swap(b"v2", &[], Some(u32::MAX)),
    ];
    for c in &commands {
        let mut bytes = encode_c(c);
        bytes.push(0xAB);
        let back = decode_command(&bytes).unwrap();
        assert_eq!(format!("{:?}", back), format!("{:?}", c));
    }
}

#[test]
fn malformed_bytes_are_rejected() {
    assert_eq!(decode_command(&[]).unwrap_err(), CodecError::Malformed);
    assert_eq!(decode_command(&[4]).unwrap_err(), CodecError::Malformed);
    assert_eq!(decode_command(&[0, 2]).unwrap_err(), CodecError::Malformed);
    assert_eq!(decode_command(&[0, 1]).unwrap_err(), CodecError::Malformed);
    assert_eq!(decode_command(&[2, 5, 1, 2]).unwrap_err(), CodecError::Malformed);
    assert_eq!(decode_status(&[]).unwrap_err(), CodecError::Malformed);
    assert_eq!(decode_status(&[1, 1, 0, 0, 2]).unwrap_err(), CodecError::Malformed);
    // Not the shortest form of 0.
    assert_eq!(decode_status(&[0, 1, 0x80, 0x00, 0, 0]).unwrap_err(), CodecError::Malformed);
    // More than 32 bits.
    assert_eq!(decode_status(&[0, 1, 0xFF, 0xFF, 0xFF, 0xFF, 0x1F, 0, 0]).unwrap_err(), CodecError::Malformed);
    assert_eq!(decode_status(&[0, 1, 0xFF, 0xFF, 0xFF, 0xFF, 0xFF, 0x01, 0, 0]).unwrap_err(), CodecError::Malformed);
}

#[test]
fn messages_too_large_for_the_room_are_rejected() {
    let s = Status::first(b"1234", Some(1), None);
    assert_eq!(encode_status(&s, 8).unwrap_err(), CodecError::BufferFull);
    assert_eq!(encode_status(&s, 9).unwrap().len(), 9);
    let big = vec![0u8; FRAME_SIZE];
    let c = Command::new_write(b"2", 0, &big, None);
    assert_eq!(command_frame(&c).unwrap_err(), CodecError::BufferFull);
    let s = Status::first(&big, None, None);
    assert_eq!(status_frame(&s).unwrap_err(), CodecError::BufferFull);
}

#[test]
fn frames_are_padded_with_zeros() {
    let s = Status::first(b"1", Some(968), None);
    let f = status_frame(&s).unwrap();
    assert_eq!(f.len(), FRAME_SIZE);
    assert_eq!(&f[..6], &[1, b'1', 1, 0xC8, 0x07, 0]);
    assert!(f[7..].iter().all(|b| *b == 0));
    assert_eq!(decode_status(&f).unwrap().mtu, Some(968));

    let data = [7u8; 968];
    let c = Command::new_write(&[b'x'; 16], u32::MAX - 968, &data, Some(u32::MAX));
    let f = command_frame(&c).unwrap();
    assert_eq!(f.len(), FRAME_SIZE);
    match decode_command(&f).unwrap() {
        Command::Write { data, offset, .. } => {
            assert_eq!(data.len(), 968);
            assert_eq!(offset, u32::MAX - 968);
        }
        other => panic!("expected a write, got {:?}", other),
    }
}

#[test]
fn layout_agrees_with_postcard() {
    let status = postcard::to_allocvec(&(&b"1.0"[..], Some(968u32), None::<u32>, Some((&b"1.1"[..], 300u32)))).unwrap();
    assert_eq!(status, encode(&Status::update(b"1.0", Some(968), 300, b"1.1", None)));
    let first = postcard::to_allocvec(&(&b"7"[..], None::<u32>, Some(5u32), None::<(&[u8], u32)>)).unwrap();
    assert_eq!(first, encode(&Status::first(b"7", None, Some(5))));
    let write = postcard::to_allocvec(&(2u32, &b"2"[..], Some(1u32), 256u32, &[9u8; 200][..])).unwrap();
    assert_eq!(write, encode_c(&Command::new_write(b"2", 256, &[9; 200], Some(1))));
    let wait = postcard::to_allocvec(&(0u32, None::<u32>, Some(10u32))).unwrap();
    assert_eq!(wait, encode_c(&Command::new_wait(Some(10), None)));
    let swap = encode_c(&Command::new_swap(b"9", &[0; 32], Some(3)));
    let (tag, version, cid, checksum): (u32, &[u8], Option<u32>, &[u8]) = postcard::from_bytes(&swap).unwrap();
    assert_eq!((tag, version, cid, checksum), (3, &b"9"[..], Some(3), &[0u8; 32][..]));
}

#[test]
fn bytes_compare_by_content() {
    let a = [1u8, 2, 3];
    let b = vec![1u8, 2, 3];
    assert!(Bytes::new(&a) == Bytes::new(&b));
    assert!(Bytes::new(&a) != Bytes::new(&b[..2]));
    assert_eq!(Bytes::default().len(), 0);
    assert!(Bytes::default() == Bytes::new(&[]));
    assert_eq!(Bytes::new(&a).as_slice(), &[1, 2, 3]);
}

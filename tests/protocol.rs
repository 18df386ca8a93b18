use tej_protoc::protoc::{
    build_bytes, build_bytes_for_files, build_bytes_for_message, build_ping_bytes,
    build_raw_bytes, decode_frame, DecodeStep, DecodedResponse, File, FrameError, StatusCode,
};
use tej_protoc::stream::{accept_read, decode_tcp_stream, split_exact, MemoryStream, ReadBuffer};

fn be64(x: u64) -> Vec<u8> {
    x.to_be_bytes().to_vec()
}

fn stream_with(chunks: Vec<Vec<u8>>) -> MemoryStream {
    let mut stream = MemoryStream::new(1024);
    for c in chunks {
        stream.deliver(c);
    }
    stream
}

fn expect_frame(step: DecodeStep) -> (DecodedResponse, usize) {
    match step {
        DecodeStep::Complete(resp, used) => (resp, used),
        DecodeStep::InvalidStartByte(b) => panic!("invalid start byte {}", b),
        DecodeStep::NeedMore => panic!("incomplete frame"),
    }
}

const TEST_123: [u8; 26] = [
    0x81, 0x01, 0, 0, 0, 0, 0, 0, 0, 0, 0, 0, 0, 0, 0, 0, 0, 0x08, b'T', b'e', b's', b't', b' ',
    b'1', b'2', b'3',
];

#[test]
fn test_build_raw_bytes() {
    let file_buffer = b"target\nCargo.lock\n".to_vec();
    let file = File::new("hello".as_bytes().to_vec(), file_buffer.clone());
    let files: Vec<&File> = vec![&file];
    let raw_bytes = build_raw_bytes(0, 1, &files, &"".as_bytes().to_vec()).unwrap();
    let mut expected = vec![0x80, 0x01];
    expected.extend(be64(1));
    expected.extend([0x00, 0x05]);
    expected.extend(b"hello");
    expected.extend(be64(file_buffer.len() as u64));
    expected.extend(&file_buffer);
    expected.extend(be64(0));
    assert_eq!(raw_bytes, expected);
}

#[test]
fn encode_test_123_scenario() {
    let files: Vec<&File> = Vec::new();
    let bytes = build_raw_bytes(1, 1, &files, &b"Test 123".to_vec()).unwrap();
    assert_eq!(bytes, TEST_123.to_vec());
}

#[test]
fn decode_test_123_scenario() {
    let (resp, used) = expect_frame(decode_frame(&TEST_123));
    assert_eq!(used, TEST_123.len());
    assert_eq!(resp.status, 1);
    assert_eq!(resp.app_status, 1);
    assert_eq!(resp.protocol_version, 1);
    assert_eq!(resp.number_of_files, 0);
    assert!(resp.files.is_empty());
    assert_eq!(resp.message, b"Test 123".to_vec());
}

#[test]
fn decode_test_123_from_stream() {
    let mut stream = stream_with(vec![TEST_123.to_vec()]);
    let resp = decode_tcp_stream(&mut stream).unwrap();
    assert_eq!(resp.app_status, 1);
    assert_eq!(resp.message, b"Test 123".to_vec());
    assert_eq!(stream.read_chunk(), Err(FrameError::ConnectionClosed));
}

#[test]
fn round_trip_with_files() {
    let a = File::new(b"a.txt".to_vec(), b"alpha".to_vec());
    let b = File::new(Vec::new(), vec![0u8, 255, 7]);
    let c = File::new(b"a.txt".to_vec(), Vec::new());
    let files: Vec<&File> = vec![&a, &b, &c];
    let bytes = build_raw_bytes(127, 255, &files, &vec![9u8; 300]).unwrap();
    let (resp, used) = expect_frame(decode_frame(&bytes));
    assert_eq!(used, bytes.len());
    assert_eq!(resp.app_status, 127);
    assert_eq!(resp.protocol_version, 255);
    assert_eq!(resp.number_of_files, 3);
    assert_eq!(resp.files.len(), 3);
    assert_eq!(resp.files[0].name, b"a.txt".to_vec());
    assert_eq!(resp.files[0].data, b"alpha".to_vec());
    assert_eq!(resp.files[1].name, Vec::<u8>::new());
    assert_eq!(resp.files[1].data, vec![0u8, 255, 7]);
    assert_eq!(resp.files[2].name, b"a.txt".to_vec());
    assert_eq!(resp.files[2].data, Vec::<u8>::new());
    assert_eq!(resp.message, vec![9u8; 300]);
}

#[test]
fn round_trip_through_one_byte_chunks() {
    let a = File::new(b"n".to_vec(), b"data".to_vec());
    let files: Vec<&File> = vec![&a];
    let bytes = build_raw_bytes(5, 2, &files, &b"msg".to_vec()).unwrap();
    let mut stream = stream_with(bytes.iter().map(|b| vec![*b]).collect());
    let resp = decode_tcp_stream(&mut stream).unwrap();
    assert_eq!(resp.app_status, 5);
    assert_eq!(resp.protocol_version, 2);
    assert_eq!(resp.files[0].name, b"n".to_vec());
    assert_eq!(resp.files[0].data, b"data".to_vec());
    assert_eq!(resp.message, b"msg".to_vec());
}

#[test]
fn decode_leaves_following_bytes() {
    let mut bytes = TEST_123.to_vec();
    bytes.extend([0xAA, 0xBB]);
    let (_, used) = expect_frame(decode_frame(&bytes));
    assert_eq!(used, TEST_123.len());
    let mut stream = stream_with(vec![bytes]);
    decode_tcp_stream(&mut stream).unwrap();
    assert_eq!(stream.read_exact(2).unwrap(), vec![0xAA, 0xBB]);
}

#[test]
fn marker_bit_clear_is_rejected() {
    let mut bytes = TEST_123.to_vec();
    bytes[0] = 0x01;
    assert!(matches!(decode_frame(&bytes), DecodeStep::InvalidStartByte(0)));
    assert!(matches!(decode_frame(&[0x7f]), DecodeStep::InvalidStartByte(0)));
    let mut stream = stream_with(vec![bytes.clone()]);
    assert_eq!(decode_tcp_stream(&mut stream).unwrap_err(), FrameError::InvalidStartByte(0));
    // only the status byte was taken
    assert_eq!(stream.read_exact(bytes.len() - 1).unwrap(), bytes[1..].to_vec());
}

#[test]
fn empty_and_short_input_needs_more() {
    assert!(matches!(decode_frame(&[]), DecodeStep::NeedMore));
    assert!(matches!(decode_frame(&TEST_123[..9]), DecodeStep::NeedMore));
    assert!(matches!(decode_frame(&TEST_123[..25]), DecodeStep::NeedMore));
}

#[test]
fn every_prefix_of_a_frame_is_incomplete() {
    let a = File::new(b"xy".to_vec(), b"zz".to_vec());
    let files: Vec<&File> = vec![&a];
    let bytes = build_raw_bytes(3, 1, &files, &b"hi".to_vec()).unwrap();
    for k in 0..bytes.len() {
        assert!(matches!(decode_frame(&bytes[..k]), DecodeStep::NeedMore));
    }
}

#[test]
fn peer_closing_mid_frame_fails_with_connection_closed() {
    let mut stream = stream_with(vec![TEST_123[..5].to_vec(), TEST_123[5..20].to_vec()]);
    assert_eq!(decode_tcp_stream(&mut stream).unwrap_err(), FrameError::ConnectionClosed);
    assert_eq!(stream.read_chunk(), Err(FrameError::ConnectionClosed));
    assert_eq!(stream.read_exact(1), Err(FrameError::ConnectionClosed));
}

#[test]
fn exact_read_same_for_any_chunking() {
    let data: Vec<u8> = (0u8..40).collect();
    let mut one = stream_with(vec![data.clone()]);
    let mut small = stream_with(data.iter().map(|b| vec![*b]).collect());
    let mut mixed = stream_with(vec![data[..3].to_vec(), data[3..17].to_vec(), data[17..].to_vec()]);
    for size in [5usize, 0, 11, 1, 23] {
        let a = one.read_exact(size).unwrap();
        let b = small.read_exact(size).unwrap();
        let c = mixed.read_exact(size).unwrap();
        assert_eq!(a, b);
        assert_eq!(a, c);
    }
    assert_eq!(one.read_exact(1), Err(FrameError::ConnectionClosed));
    assert_eq!(small.read_exact(1), Err(FrameError::ConnectionClosed));
}

#[test]
fn exact_read_keeps_leftover_in_order() {
    let mut stream = stream_with(vec![vec![1, 2, 3, 4, 5], vec![6, 7]]);
    assert_eq!(stream.read_exact(2).unwrap(), vec![1, 2]);
    assert_eq!(stream.read_exact(0).unwrap(), Vec::<u8>::new());
    assert_eq!(stream.read_chunk().unwrap(), vec![3, 4, 5]);
    assert_eq!(stream.read_exact(2).unwrap(), vec![6, 7]);
}

#[test]
fn exact_read_past_the_end_fails() {
    let mut stream = stream_with(vec![vec![1, 2, 3]]);
    assert_eq!(stream.read_exact(4), Err(FrameError::ConnectionClosed));
    assert_eq!(stream.read_exact(1), Err(FrameError::ConnectionClosed));
}

#[test]
fn two_written_frames_decode_in_order() {
    let f = File::new(b"f".to_vec(), b"contents".to_vec());
    let files: Vec<&File> = vec![&f];
    let first = build_raw_bytes(4, 1, &files, &b"one".to_vec()).unwrap();
    let second = build_ping_bytes();
    let mut writer = MemoryStream::new(16);
    writer.write_chunk(&first).unwrap();
    writer.write_chunk(&second).unwrap();
    let wire = writer.take_written();
    let mut expected = first.clone();
    expected.extend(&second);
    assert_eq!(wire, expected);
    let mut reader = stream_with(vec![wire]);
    let a = decode_tcp_stream(&mut reader).unwrap();
    let b = decode_tcp_stream(&mut reader).unwrap();
    assert_eq!(a.app_status, 4);
    assert_eq!(a.files[0].data, b"contents".to_vec());
    assert_eq!(a.message, b"one".to_vec());
    assert_eq!(b.app_status, 2);
    assert!(b.message.is_empty());
    assert_eq!(decode_tcp_stream(&mut reader).unwrap_err(), FrameError::ConnectionClosed);
}

#[test]
fn name_longer_than_sixteen_bits_is_rejected() {
    let long = File::new(vec![b'x'; 65536], Vec::new());
    let files: Vec<&File> = vec![&long];
    assert_eq!(build_raw_bytes(0, 1, &files, &Vec::new()), Err(FrameError::NameTooLong));
    assert_eq!(build_bytes_for_files(&files), Err(FrameError::NameTooLong));
    let longest = File::new(vec![b'x'; 65535], Vec::new());
    let files: Vec<&File> = vec![&longest];
    let bytes = build_raw_bytes(0, 1, &files, &Vec::new()).unwrap();
    assert_eq!(&bytes[10..12], &[0xff, 0xff]);
    let (resp, _) = expect_frame(decode_frame(&bytes));
    assert_eq!(resp.files[0].name.len(), 65535);
}

#[test]
fn builders_use_status_zero_and_version_one() {
    let message = b"abc".to_vec();
    let mut expected = vec![0x80, 0x01];
    expected.extend(be64(0));
    expected.extend(be64(3));
    expected.extend(b"abc");
    assert_eq!(build_bytes_for_message(&message), expected);
    assert_eq!(build_bytes(None, Some(&message)).unwrap(), expected);

    let f = File::new(b"k".to_vec(), b"v".to_vec());
    let files: Vec<&File> = vec![&f];
    let mut expected = vec![0x80, 0x01];
    expected.extend(be64(1));
    expected.extend([0x00, 0x01, b'k']);
    expected.extend(be64(1));
    expected.push(b'v');
    expected.extend(be64(0));
    assert_eq!(build_bytes_for_files(&files).unwrap(), expected);
    assert_eq!(build_bytes(Some(&files), None).unwrap(), expected);

    let mut empty = vec![0x80, 0x01];
    empty.extend(be64(0));
    empty.extend(be64(0));
    assert_eq!(build_bytes(None, None).unwrap(), empty);
}

#[test]
fn ping_frame_layout() {
    let mut expected = vec![0x82, 0x01];
    expected.extend(be64(0));
    expected.extend(be64(0));
    assert_eq!(build_ping_bytes(), expected);
    assert_eq!(StatusCode::Ping.value(), 2);
    assert_eq!(StatusCode::FirstBit.value(), 1);
}

#[test]
fn zero_byte_read_means_closed() {
    assert_eq!(accept_read(vec![0u8; 8], 0), Err(FrameError::ConnectionClosed));
    assert_eq!(accept_read(vec![1, 2, 3, 4], 3), Ok(vec![1, 2, 3]));
}

#[test]
fn split_exact_returns_head_and_rest() {
    assert_eq!(split_exact(vec![1, 2, 3, 4], 1), (vec![1], vec![2, 3, 4]));
    assert_eq!(split_exact(vec![1, 2], 2), (vec![1, 2], vec![]));
}

#[test]
fn pushback_slot_holds_one_buffer() {
    let mut slot = ReadBuffer::new(64);
    assert_eq!(slot.buffer_size(), 64);
    assert_eq!(slot.take_restored(), None);
    slot.restore_payload(vec![1, 2]);
    slot.restore_payload(vec![3]);
    assert_eq!(slot.take_restored(), Some(vec![3]));
    assert_eq!(slot.take_restored(), None);
    slot.restore_payload(Vec::new());
    assert_eq!(slot.take_restored(), None);
}

#[test]
fn restored_bytes_come_before_new_chunks() {
    let mut stream = stream_with(vec![vec![5, 6]]);
    stream.restore_payload(vec![1, 2]);
    assert_eq!(stream.read_exact(3).unwrap(), vec![1, 2, 5]);
    assert_eq!(stream.read_chunk().unwrap(), vec![6]);
}

#[test]
fn shutdown_closes_both_directions() {
    let mut stream = stream_with(vec![vec![1, 2, 3]]);
    assert_eq!(stream.buffer_size(), 1024);
    assert_eq!(stream.shutdown(), Ok(()));
    assert_eq!(stream.shutdown(), Ok(()));
    assert_eq!(stream.read_chunk(), Err(FrameError::ConnectionClosed));
    assert_eq!(stream.read_exact(1), Err(FrameError::ConnectionClosed));
    assert_eq!(stream.write_chunk(&[1]), Err(FrameError::ConnectionClosed));
    stream.deliver(vec![4]);
    assert_eq!(stream.read_chunk(), Err(FrameError::ConnectionClosed));
    assert!(stream.take_written().is_empty());
}

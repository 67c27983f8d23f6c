use pewpew::client::Client;
use pewpew::frame::Frame;
use pewpew::wire::len_encode_bytes;

#[test]
fn test_empty() {
    let mut client = Client::new();
    let bytes = Vec::new();
    let mut frames = Vec::new();

    client.process_frame(&bytes, &mut frames);

    assert!(frames.is_empty());
    assert!(client.msg_start().is_empty());
    assert!(client.current_frame().is_none());
}

#[test]
fn test_msg_start() {
    let mut client = Client::new();
    let mut frames = Vec::new();
    let bytes = vec![2, 0, 0];

    client.process_frame(&bytes, &mut frames);

    assert!(frames.is_empty());
    assert!(client.current_frame().is_none());
    assert_eq!(client.msg_start(), &bytes);
}

#[test]
fn test_partial_data() {
    let data = vec![1, 2, 3, 4, 5];
    let bytes = len_encode_bytes(data.clone());
    assert_eq!(bytes.len(), 4 + 5); // length u32 plus 5 1-byte nums
    let mut client = Client::new();
    let mut frames = Vec::new();

    // Read the first chunk
    client.process_frame(&bytes[..6], &mut frames);
    {
        assert!(frames.is_empty());
        let frame = client.current_frame().expect("should have in-progress frame");
        assert!(!frame.is_complete());
        assert_eq!(frame.len(), data.len());
        assert_eq!(frame.bytes(), &vec![1, 2]);
    }

    // and then the rest
    client.process_frame(&bytes[6..], &mut frames);

    assert_eq!(1, frames.len());
    let frame = &frames[0];
    assert_eq!(frame.bytes(), &data);
}

#[test]
fn test_frame_reader() {
    let data = vec![1, 2, 3, 4, 5];
    let bytes = len_encode_bytes(data.clone());
    assert_eq!(bytes.len(), 4 + 5); // length u32 plus 5 1-byte nums
    let mut client = Client::new();
    let mut frames = Vec::new();

    client.process_frame(&bytes, &mut frames);

    assert_eq!(1, frames.len());
    let frame = &frames[0];
    assert!(frame.is_complete());
    assert_eq!(frame.bytes(), &data);
    assert_eq!(frame.len(), data.len());
}

#[test]
fn test_multiple_frames() {
    let data1 = vec![1, 2, 3, 4, 5];
    let mut bytes1 = len_encode_bytes(data1.clone());
    let data2 = vec![6, 7, 8, 9, 10, 11];
    let mut bytes2 = len_encode_bytes(data2.clone());
    let mut client = Client::new();
    let mut frames = Vec::new();
    let mut both = Vec::with_capacity(bytes1.len() + bytes2.len());
    both.append(&mut bytes1);
    both.append(&mut bytes2);

    client.process_frame(&both, &mut frames);

    assert_eq!(2, frames.len());
    assert_eq!(data1.len(), frames[0].len());
    assert_eq!(data2.len(), frames[1].len());
}

#[test]
fn two_messages_in_one_chunk_keep_their_bytes_and_order() {
    let mut both = len_encode_bytes(vec![1, 2, 3, 4, 5]);
    both.append(&mut len_encode_bytes(vec![6, 7, 8, 9, 10, 11]));
    let mut client = Client::new();
    let mut frames = Vec::new();

    client.process_frame(&both, &mut frames);

    assert_eq!(2, frames.len());
    assert_eq!(frames[0].bytes(), &vec![1, 2, 3, 4, 5]);
    assert_eq!(frames[1].bytes(), &vec![6, 7, 8, 9, 10, 11]);
    assert!(frames[0].is_complete());
    assert!(frames[1].is_complete());
    assert!(client.current_frame().is_none());
    assert!(client.msg_start().is_empty());
}

#[test]
fn one_byte_at_a_time_gives_one_frame() {
    let data = vec![10, 20, 30, 40, 50, 60, 70];
    let bytes = len_encode_bytes(data.clone());
    let mut client = Client::new();
    let mut frames = Vec::new();

    for i in 0..bytes.len() {
        assert!(frames.is_empty());
        client.process_frame(&bytes[i..i + 1], &mut frames);
    }

    assert_eq!(1, frames.len());
    assert_eq!(frames[0].bytes(), &data);
    assert_eq!(frames[0].len(), data.len());
    assert!(client.current_frame().is_none());
    assert!(client.msg_start().is_empty());
}

#[test]
fn every_cut_in_two_gives_the_same_frame() {
    let data = vec![1, 2, 3, 4, 5];
    let bytes = len_encode_bytes(data.clone());
    for cut in 0..bytes.len() + 1 {
        let mut client = Client::new();
        let mut frames = Vec::new();
        client.process_frame(&bytes[..cut], &mut frames);
        client.process_frame(&bytes[cut..], &mut frames);
        assert_eq!(1, frames.len());
        assert_eq!(frames[0].bytes(), &data);
        assert!(client.current_frame().is_none());
        assert!(client.msg_start().is_empty());
    }
}

#[test]
fn prefix_split_across_chunks() {
    let data = vec![9, 8, 7];
    let bytes = len_encode_bytes(data.clone());
    for n in 0..4 {
        let mut client = Client::new();
        let mut frames = Vec::new();
        client.process_frame(&bytes[..n], &mut frames);
        assert!(frames.is_empty());
        assert!(client.current_frame().is_none());
        assert_eq!(client.msg_start().as_slice(), &bytes[..n]);
        client.process_frame(&bytes[n..], &mut frames);
        assert_eq!(1, frames.len());
        assert_eq!(frames[0].bytes(), &data);
        assert_eq!(frames[0].len(), 3);
    }
}

#[test]
fn zero_length_message_completes_at_once() {
    let mut client = Client::new();
    let mut frames = Vec::new();

    client.process_frame(&[0, 0, 0, 0], &mut frames);

    assert_eq!(1, frames.len());
    assert!(frames[0].is_complete());
    assert_eq!(frames[0].len(), 0);
    assert!(frames[0].bytes().is_empty());
    assert!(client.current_frame().is_none());
    assert!(client.msg_start().is_empty());
}

#[test]
fn zero_length_message_takes_no_payload_bytes() {
    let mut bytes = vec![0, 0, 0, 0];
    bytes.append(&mut len_encode_bytes(vec![42, 43]));
    let mut client = Client::new();
    let mut frames = Vec::new();

    client.process_frame(&bytes, &mut frames);

    assert_eq!(2, frames.len());
    assert!(frames[0].bytes().is_empty());
    assert_eq!(frames[1].bytes(), &vec![42, 43]);
}

#[test]
fn tail_whole_message_and_next_prefix_in_one_chunk() {
    let mut stream = len_encode_bytes(vec![1, 2, 3]);
    stream.append(&mut len_encode_bytes(vec![4, 5]));
    stream.append(&mut len_encode_bytes(vec![6, 7, 8, 9]));
    let mut client = Client::new();
    let mut frames = Vec::new();

    client.process_frame(&stream[..5], &mut frames);
    assert!(frames.is_empty());
    client.process_frame(&stream[5..15], &mut frames);
    assert_eq!(2, frames.len());
    assert_eq!(frames[0].bytes(), &vec![1, 2, 3]);
    assert_eq!(frames[1].bytes(), &vec![4, 5]);
    assert!(client.current_frame().is_none());
    assert_eq!(client.msg_start(), &vec![4, 0]);
    client.process_frame(&stream[15..], &mut frames);
    assert_eq!(3, frames.len());
    assert_eq!(frames[2].bytes(), &vec![6, 7, 8, 9]);
}

#[test]
fn declared_length_is_read_little_endian() {
    let mut client = Client::new();
    let mut frames = Vec::new();

    client.process_frame(&[4, 3, 2, 1, 0xaa], &mut frames);

    assert!(frames.is_empty());
    assert!(client.msg_start().is_empty());
    let frame = client.current_frame().expect("a frame is in progress");
    assert_eq!(frame.len(), 0x01020304);
    assert_eq!(frame.bytes(), &vec![0xaa]);
    assert_eq!(frame.received(), 1);
}

#[test]
fn earlier_results_are_kept() {
    let mut client = Client::new();
    let mut frames: Vec<Frame> = Vec::new();
    client.process_frame(&len_encode_bytes(vec![1]), &mut frames);
    client.process_frame(&len_encode_bytes(vec![2, 3]), &mut frames);
    assert_eq!(2, frames.len());
    assert_eq!(frames[0].bytes(), &vec![1]);
    assert_eq!(frames[1].bytes(), &vec![2, 3]);
}

#[test]
fn read_frames_returns_what_a_read_completes() {
    let mut stream = len_encode_bytes(vec![1, 2, 3]);
    stream.append(&mut len_encode_bytes(vec![4, 5]));
    let mut client = Client::new();

    let first = client.read_frames(&stream[..10]);
    assert_eq!(first.len(), 1);
    assert_eq!(first[0].bytes(), &vec![1, 2, 3]);
    let second = client.read_frames(&stream[10..]);
    assert_eq!(second.len(), 1);
    assert_eq!(second[0].bytes(), &vec![4, 5]);
    assert!(client.read_frames(&[]).is_empty());
}

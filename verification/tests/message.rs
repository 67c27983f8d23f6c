use bincode::{deserialize, serialize, Infinite};
use pewpew::message::Message;

#[test]
fn message_empty_msg() {
    let message = Message::new(35);
    assert_eq!(35, message.len());
    assert_eq!(0, message.received());
    assert!(message.bytes().is_empty());
    assert!(!message.is_complete());
}

#[test]
fn message_read_from_bytes() {
    let obj: (i32, f32) = (15, 9.3);
    let encoded: Vec<u8> = serialize(&obj, Infinite).expect("serialization failed");
    let total_length = encoded.len();
    assert_eq!(total_length, 8);

    let mut with_extra = encoded.clone();
    with_extra.append(&mut encoded.clone());
    assert_eq!(with_extra.len(), 2 * encoded.len());

    let mut message = Message::new(total_length);
    let extra = message.read(with_extra.as_slice());
    assert_eq!(extra.unwrap(), encoded);
    assert!(message.is_complete());
    assert_eq!(&encoded, message.bytes());

    let decoded: (i32, f32) = deserialize(message.bytes()).unwrap();
    assert_eq!(obj, decoded);
}

#[test]
fn message_read_partial() {
    let obj: (i32, f32) = (999, -9.3);
    let encoded: Vec<u8> = serialize(&obj, Infinite).expect("serialization failed");
    let total_length = encoded.len();
    assert_eq!(total_length, 8);

    let mut first = encoded.clone();
    let second = first.split_off(4);

    let mut message = Message::new(total_length);
    let extra = message.read(first.as_slice());
    assert!(extra.is_none());
    assert!(!message.is_complete());
    assert_eq!(message.bytes(), &first);
    assert_eq!(message.received(), 4);

    message.read(second.as_slice());
    assert!(extra.is_none());
    assert!(message.is_complete());
    assert_eq!(message.bytes(), &encoded);

    let decoded: (i32, f32) = deserialize(message.bytes()).unwrap();
    assert_eq!(obj, decoded);
}

#[test]
fn message_hands_the_rest_back_as_its_own_buffer() {
    let mut message = Message::new(2);
    let extra = message.read(&[1, 2, 3, 4]);
    assert_eq!(extra, Some(vec![3, 4]));
    assert!(message.is_complete());
    assert_eq!(message.bytes(), &vec![1, 2]);
    assert_eq!(message.len(), 2);
}

#[test]
fn message_exact_fit_leaves_nothing() {
    let mut message = Message::new(2);
    assert_eq!(message.read(&[1, 2]), None);
    assert!(message.is_complete());
}

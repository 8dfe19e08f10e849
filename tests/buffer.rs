use std::sync::Mutex;
use yate::buffer::ByteQueue;

#[test]
fn take_all_empties_the_queue() {
    let mut q = ByteQueue::new();
    assert!(q.is_empty());
    q.append(b"abc");
    assert!(!q.is_empty());
    assert_eq!(q.take_all(), b"abc".to_vec());
    assert!(q.is_empty());
    assert_eq!(q.take_all(), Vec::<u8>::new());
}

#[test]
fn drains_reconstruct_the_stream() {
    let mut q = ByteQueue::new();
    let mut got: Vec<u8> = Vec::new();
    q.append(b"he");
    q.append(b"ll");
    got.extend(q.take_all());
    q.append(b"o");
    got.extend(q.take_all());
    got.extend(q.take_all());
    q.append(b" world");
    q.append(b"!");
    got.extend(q.take_all());
    assert_eq!(got, b"hello world!".to_vec());
}

#[test]
fn interleaved_appends_and_drains_keep_order() {
    let q = Mutex::new(ByteQueue::new());
    let mut got: Vec<u8> = Vec::new();
    for i in 0..2000u32 {
        q.lock().unwrap().append(&[(i % 251) as u8]);
        if i % 7 == 0 {
            got.extend(q.lock().unwrap().take_all());
        }
    }
    got.extend(q.lock().unwrap().take_all());
    let expected: Vec<u8> = (0..2000u32).map(|i| (i % 251) as u8).collect();
    assert_eq!(got, expected);
}

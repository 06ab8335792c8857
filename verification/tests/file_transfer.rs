use netstack::transfer::{chunk_count, chunk_messages, ChunkEvent, FileReceiver, TransferError};

fn message(total: u32, idx: u32, chunk: &[u8]) -> Vec<u8> {
    let mut m = Vec::new();
    m.extend_from_slice(&total.to_be_bytes());
    m.extend_from_slice(&idx.to_be_bytes());
    m.extend_from_slice(&(chunk.len() as u32).to_be_bytes());
    m.extend_from_slice(chunk);
    m
}

#[test]
fn chunking_layout() {
    assert_eq!(chunk_count(1), 1);
    assert_eq!(chunk_count(1200), 1);
    assert_eq!(chunk_count(1201), 2);
    assert_eq!(chunk_messages(&[]), Err(TransferError::EmptyFile));
    let data: Vec<u8> = (0..2500u32).map(|i| i as u8).collect();
    let msgs = chunk_messages(&data).unwrap();
    assert_eq!(msgs.len(), 3);
    assert_eq!(msgs[0], message(3, 0, &data[..1200]));
    assert_eq!(msgs[1], message(3, 1, &data[1200..2400]));
    assert_eq!(msgs[2], message(3, 2, &data[2400..]));
}

#[test]
fn file_roundtrip_in_order() {
    let data: Vec<u8> = (0..3700u32).map(|i| (i * 13 % 256) as u8).collect();
    let msgs = chunk_messages(&data).unwrap();
    let mut r = FileReceiver::new();
    let n = msgs.len();
    for (k, m) in msgs.iter().enumerate() {
        let (announced, event) = r.on_datagram(m);
        assert_eq!(announced, if k == 0 { Some(n as u32) } else { None });
        if k + 1 < n {
            assert!(matches!(event, ChunkEvent::Stored { have, total, .. } if have == k + 1 && total == n));
        } else {
            match event {
                ChunkEvent::Complete { index, file } => {
                    assert_eq!(index as usize, k);
                    assert_eq!(file, data);
                }
                other => panic!("unexpected {:?}", other),
            }
        }
    }
}

#[test]
fn file_roundtrip_out_of_order_with_duplicates() {
    let data: Vec<u8> = (0..2401u32).map(|i| (i % 97) as u8).collect();
    let msgs = chunk_messages(&data).unwrap();
    assert_eq!(msgs.len(), 3);
    let mut r = FileReceiver::new();
    assert!(matches!(r.on_datagram(&msgs[2]).1, ChunkEvent::Stored { have: 1, .. }));
    assert!(matches!(r.on_datagram(&msgs[2]).1, ChunkEvent::Stored { have: 1, .. }));
    assert!(matches!(r.on_datagram(&msgs[0]).1, ChunkEvent::Stored { have: 2, .. }));
    match r.on_datagram(&msgs[1]).1 {
        ChunkEvent::Complete { index, file } => {
            assert_eq!(index, 1);
            assert_eq!(file, data);
        }
        other => panic!("unexpected {:?}", other),
    }
}

#[test]
fn malformed_datagrams_are_dropped() {
    let mut r = FileReceiver::new();
    assert!(matches!(r.on_datagram(&[0u8; 11]), (None, ChunkEvent::TooShort)));
    let mut m = message(2, 0, b"abc");
    m.truncate(14);
    assert!(matches!(r.on_datagram(&m), (None, ChunkEvent::LengthMismatch { index: 0, chunk_len: 3 })));
    let (announced, e) = r.on_datagram(&message(2, 5, b"x"));
    assert_eq!(announced, Some(2));
    assert!(matches!(e, ChunkEvent::OutOfRange { index: 5, total: 2 }));
    // The count is fixed by the first valid datagram.
    assert!(matches!(r.on_datagram(&message(9, 1, b"y")), (None, ChunkEvent::Stored { have: 1, total: 2, .. })));
}

#[test]
fn file_roundtrip_out_of_order_with_repeats() {
    let data: Vec<u8> = (0..4000u32).map(|i| (i * 31 % 256) as u8).collect();
    let msgs = chunk_messages(&data).unwrap();
    assert_eq!(msgs.len(), 4);
    let order = [2usize, 2, 0, 3, 0, 1, 1];
    let mut r = FileReceiver::new();
    let mut complete_at = None;
    for (step, &i) in order.iter().enumerate() {
        let (_, event) = r.on_datagram(&msgs[i]);
        match event {
            ChunkEvent::Stored { index, have, total } => {
                assert!(complete_at.is_none());
                assert_eq!(index as usize, i);
                assert_eq!(total, 4);
                assert!(have < 4);
            }
            ChunkEvent::Complete { index, file } => {
                assert_eq!(index as usize, i);
                assert_eq!(file, data);
                complete_at.get_or_insert(step);
            }
            other => panic!("unexpected {:?}", other),
        }
    }
    // Chunk 1 was the last to arrive, at step 5.
    assert_eq!(complete_at, Some(5));
}

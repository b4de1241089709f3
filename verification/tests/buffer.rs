use relnet::confirms::Buffer;
use relnet::header::DatagramId;

#[test]
fn test_buffer() {
    let now: u64 = 0;
    let mut buf = Buffer::new();

    assert!(buf.flush(13).is_none());
    assert!(!buf.ready(now));

    buf.push(now, DatagramId::try_from_u32(1042).unwrap());
    assert!(!buf.ready(now));
    assert_eq!(buf.flush(13).unwrap(), &[0, 4, 18]);
    assert!(!buf.ready(now));
    assert!(buf.flush(13).is_none());
    assert!(!buf.ready(now));

    buf.push(now, DatagramId::try_from_u32(43).unwrap());
    assert!(!buf.ready(now));
    assert!(buf.ready(now + 10_000));
    assert_eq!(buf.flush(13).unwrap(), &[0, 0, 43]);
    assert!(buf.flush(13).is_none());

    for i in 0..32 {
        buf.push(now, DatagramId::try_from_u32(100 + i).unwrap());

        if i < 31 {
            assert!(!buf.ready(now));
        } else {
            assert!(buf.ready(now));
        }
    }

    for i in 0..8u8 {
        assert_eq!(
            buf.flush(12 + (i as usize) % 3).unwrap(),
            &[
                0,
                0,
                128 - i * 4,
                0,
                0,
                129 - i * 4,
                0,
                0,
                130 - i * 4,
                0,
                0,
                131 - i * 4
            ]
        );
    }

    assert!(buf.flush(8).is_none());
}

#[test]
fn buffer_age_threshold_boundary() {
    let mut buf = Buffer::new();
    buf.push(500, DatagramId::try_from_u32(7).unwrap());
    assert!(!buf.ready(500));
    assert!(!buf.ready(599));
    assert!(buf.ready(600));
    assert!(buf.ready(601));
}

#[test]
fn buffer_oldest_resets_only_from_empty() {
    let mut buf = Buffer::new();
    buf.push(100, DatagramId::try_from_u32(1).unwrap());
    // A second push while non-empty must not refresh the age clock.
    buf.push(190, DatagramId::try_from_u32(2).unwrap());
    assert!(buf.ready(200));
    // Drain fully; a new push then restarts the age clock.
    assert!(buf.flush(1020).is_some());
    assert!(buf.flush(1020).is_none());
    buf.push(1000, DatagramId::try_from_u32(3).unwrap());
    assert!(!buf.ready(1099));
    assert!(buf.ready(1100));
}

#[test]
fn buffer_chunk_cap_alignment() {
    // Caps that are not multiples of 3 or 4: the cap is aligned down to a
    // multiple of 4, so a cap of 13 or 14 yields 12-byte chunks.
    let mut buf = Buffer::new();
    for i in 0..8 {
        buf.push(0, DatagramId::try_from_u32(i).unwrap());
    }
    let chunk = buf.flush(14).unwrap();
    assert_eq!(chunk.len(), 12);
    assert_eq!(chunk.len() % 3, 0);
    let chunk = buf.flush(13).unwrap();
    assert_eq!(chunk.len(), 12);
    assert!(buf.flush(13).is_none());
}

#[test]
fn buffer_cap_sixteen_splits_an_id() {
    // The four-byte alignment of the chunk cap does not agree with the
    // three-byte id encoding: a cap of 16 carves a 16-byte chunk out of 24
    // pending bytes and splits an id across two chunks.
    let mut buf = Buffer::new();
    for i in 0..8 {
        buf.push(0, DatagramId::try_from_u32(1000 + i).unwrap());
    }
    let chunk = buf.flush(16).unwrap();
    assert_eq!(chunk.len(), 16);
    assert_ne!(chunk.len() % 3, 0);
    let rest = buf.flush(16).unwrap();
    assert_eq!(rest.len(), 8);
    // Nothing is lost or duplicated: together the chunks are the 24 bytes.
    assert_eq!(rest.len() + chunk.len(), 24);
    let mut whole: Vec<u8> = rest.clone();
    whole.extend_from_slice(&chunk);
    let mut expected: Vec<u8> = Vec::new();
    for i in 0..8 {
        expected.extend_from_slice(&DatagramId::try_from_u32(1000 + i).unwrap().to_bytes());
    }
    assert_eq!(whole, expected);
}

#[test]
fn buffer_push_after_partial_flush_never_duplicates() {
    // A chunk handed out by a partial drain is committed: a push arriving
    // before the drain resumes discards it, so its bytes are not emitted
    // a second time, and nothing pending is lost.
    let mut buf = Buffer::new();
    buf.push(0, DatagramId::try_from_u32(1).unwrap());
    buf.push(0, DatagramId::try_from_u32(2).unwrap());
    // Partial drain: a cap of 4 carves the last four bytes.
    let first = buf.flush(4).unwrap();
    assert_eq!(first, vec![1u8, 0, 0, 2]);
    // Interleaved push: the committed chunk is discarded, the remaining
    // pending prefix is kept and the new id is appended after it.
    buf.push(0, DatagramId::try_from_u32(3).unwrap());
    let second = buf.flush(1020).unwrap();
    assert_eq!(second, vec![0u8, 0, 0, 0, 3]);
    assert!(buf.flush(1020).is_none());
    // Together the two chunks hold the nine pushed bytes exactly once.
    assert_eq!(first.len() + second.len(), 9);
}

#[test]
fn buffer_drain_reconstructs_pushes() {
    // Every pushed id encoding appears in exactly one chunk; stitching the
    // chunks back together, most recently drained first, reproduces the
    // pushed byte sequence.
    let mut buf = Buffer::new();
    let mut pushed: Vec<u8> = Vec::new();
    for i in 0..10 {
        let id = DatagramId::try_from_u32(40_000 + i).unwrap();
        pushed.extend_from_slice(&id.to_bytes());
        buf.push(0, id);
    }
    let mut chunks: Vec<Vec<u8>> = Vec::new();
    while let Some(c) = buf.flush(13) {
        assert!(c.len() > 0);
        assert!(c.len() <= 13);
        chunks.push(c);
    }
    let mut rebuilt: Vec<u8> = Vec::new();
    for c in chunks.iter().rev() {
        rebuilt.extend_from_slice(c);
    }
    assert_eq!(rebuilt, pushed);
}

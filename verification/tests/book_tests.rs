use relnet::book::{ConnectionBook, MAX_CONN_AGE};
use relnet::confirms::Buffer;
use relnet::header::DatagramId;

#[test]
fn book_update_creates_and_retrieves() {
    let mut book: ConnectionBook<Buffer> = ConnectionBook::new();
    assert_eq!(book.len(), 0);
    assert!(!book.contains(7));
    {
        let state = book.update(10, 7);
        state.push(10, DatagramId::try_from_u32(1).unwrap());
    }
    assert!(book.contains(7));
    assert_eq!(book.len(), 1);
    // A second update for the same peer returns the same state object.
    {
        let state = book.update(20, 7);
        assert!(state.ready(200));
    }
    assert_eq!(book.len(), 1);
}

#[test]
fn book_next_sweeps_every_peer_once() {
    let mut book: ConnectionBook<Buffer> = ConnectionBook::new();
    book.update(0, 11);
    book.update(0, 22);
    book.update(0, 33);
    assert_eq!(book.next(), Some(11));
    assert_eq!(book.next(), Some(22));
    assert_eq!(book.next(), Some(33));
    assert_eq!(book.next(), None);
    // The sweep restarts after a full pass.
    assert_eq!(book.next(), Some(11));
}

#[test]
fn book_clean_removes_only_stale_idle_entries() {
    let mut book: ConnectionBook<Buffer> = ConnectionBook::new();
    // Peer 1: idle (empty buffer), touched at time 0.
    book.update(0, 1);
    // Peer 2: pending work, touched at time 0.
    book.update(0, 2).push(0, DatagramId::try_from_u32(9).unwrap());
    // Peer 3: idle but touched recently.
    book.update(MAX_CONN_AGE, 3);

    // Within the window nothing is removed.
    book.clean(MAX_CONN_AGE);
    assert!(book.contains(1));
    assert!(book.contains(2));
    assert!(book.contains(3));

    // Beyond peer 1's window: peer 1 goes, peer 2 stays because work is
    // outstanding, however old, and peer 3 stays because it is recent.
    book.clean(MAX_CONN_AGE + 1);
    assert!(!book.contains(1));
    assert!(book.contains(2));
    assert!(book.contains(3));
}

#[test]
fn book_get_reads_without_touching() {
    let mut book: ConnectionBook<Buffer> = ConnectionBook::new();
    book.update(0, 5).push(0, DatagramId::try_from_u32(1).unwrap());
    assert!(book.get(5).is_some());
    assert!(book.get(6).is_none());
    // `get` does not refresh the last touch: after draining the buffer the
    // entry is still removed once stale.
    {
        let b = book.state_mut(5);
        while b.flush(1020).is_some() {}
    }
    assert!(book.get(5).is_some());
    book.clean(MAX_CONN_AGE + 1);
    assert!(!book.contains(5));
}

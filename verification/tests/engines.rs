use relnet::book::MAX_CONN_AGE;
use relnet::confirms::{Confirmations, MAX_BUFF_AGE, MAX_BUFF_SIZE};
use relnet::header::{DatagramHeader, DatagramId};
use relnet::resend::{DeliveryFailure, Resends, MAX_RETRIES, RETRY_INTERVAL};

#[test]
fn confirms_batch_and_flush_by_age() {
    let mut conf = Confirmations::new();
    conf.received(0, 99, DatagramId::try_from_u32(43).unwrap());

    // Not ready yet: nothing is emitted.
    let out = conf.send_confirms(0);
    assert_eq!(out.len(), 0);

    // Old enough: one confirmation datagram carrying the packed id.
    let out = conf.send_confirms(MAX_BUFF_AGE);
    assert_eq!(out.len(), 1);
    assert_eq!(out[0].header, DatagramHeader::Confirmation);
    assert_eq!(out[0].addr, 99);
    assert_eq!(out[0].data, vec![0u8, 0, 43]);

    // The buffer was drained: a second pass emits nothing.
    let out = conf.send_confirms(MAX_BUFF_AGE * 2);
    assert_eq!(out.len(), 0);
}

#[test]
fn confirms_flush_by_size_per_peer() {
    let mut conf = Confirmations::new();
    // Fill one peer's buffer to the size threshold; another peer stays
    // under it.
    let full = MAX_BUFF_SIZE / 3;
    for i in 0..full {
        conf.received(0, 1, DatagramId::try_from_u32(i as u32).unwrap());
    }
    conf.received(0, 2, DatagramId::try_from_u32(7).unwrap());

    let out = conf.send_confirms(0);
    assert_eq!(out.len(), 1);
    assert_eq!(out[0].addr, 1);
    assert_eq!(out[0].data.len(), MAX_BUFF_SIZE);
    assert_eq!(out[0].data.len() % 3, 0);
}

#[test]
fn confirms_clean_drops_stale_idle_peers() {
    let mut conf = Confirmations::new();
    conf.received(0, 5, DatagramId::try_from_u32(1).unwrap());
    let out = conf.send_confirms(MAX_BUFF_AGE);
    assert_eq!(out.len(), 1);
    // Drained and untouched for longer than the staleness window: the
    // entry goes. (send_confirms does not refresh the touch time.)
    conf.clean(MAX_CONN_AGE + 1);
    let out = conf.send_confirms(MAX_CONN_AGE + MAX_BUFF_AGE + 1);
    assert_eq!(out.len(), 0);
}

#[test]
fn acknowledged_message_is_never_retransmitted() {
    let mut res = Resends::new();
    let id = DatagramId::try_from_u32(300).unwrap();
    res.track(0, 50, id, vec![1, 2, 3]);
    res.acknowledge(50, id);

    let (out, failed) = res.resend_due(RETRY_INTERVAL);
    assert_eq!(out.len(), 0);
    assert_eq!(failed.len(), 0);
    // Duplicate and unknown acknowledgments are no-ops.
    res.acknowledge(50, id);
    res.acknowledge(51, id);
}

#[test]
fn unacknowledged_message_retries_then_fails_once() {
    let mut res = Resends::new();
    let id = DatagramId::try_from_u32(301).unwrap();
    res.track(0, 60, id, vec![9, 9, 9]);

    // Before the retry interval nothing is due.
    let (out, failed) = res.resend_due(RETRY_INTERVAL - 1);
    assert_eq!(out.len(), 0);
    assert_eq!(failed.len(), 0);

    // Retransmitted at the configured interval, up to the retry budget,
    // with the payload verbatim.
    for k in 1..=(MAX_RETRIES as u64) {
        let (out, failed) = res.resend_due(k * RETRY_INTERVAL);
        assert_eq!(out.len(), 1);
        assert_eq!(out[0].addr, 60);
        assert_eq!(out[0].data, vec![9, 9, 9]);
        assert_eq!(
            out[0].header,
            DatagramHeader::Data { reliable: true, id }
        );
        assert_eq!(failed.len(), 0);
    }

    // Budget exhausted: reported as failed exactly once, then silence.
    let (out, failed) = res.resend_due((MAX_RETRIES as u64 + 1) * RETRY_INTERVAL);
    assert_eq!(out.len(), 0);
    assert_eq!(failed, vec![DeliveryFailure { addr: 60, id }]);

    let (out, failed) = res.resend_due((MAX_RETRIES as u64 + 2) * RETRY_INTERVAL);
    assert_eq!(out.len(), 0);
    assert_eq!(failed.len(), 0);
}

#[test]
fn resend_tracks_per_peer_independently() {
    let mut res = Resends::new();
    let id = DatagramId::try_from_u32(77).unwrap();
    res.track(0, 1, id, vec![1]);
    res.track(0, 2, id, vec![2]);
    res.acknowledge(1, id);
    let (out, failed) = res.resend_due(RETRY_INTERVAL);
    assert_eq!(out.len(), 1);
    assert_eq!(out[0].addr, 2);
    assert_eq!(out[0].data, vec![2]);
    assert_eq!(failed.len(), 0);
}

//! Retransmission: tracks reliable messages awaiting acknowledgment per
//! peer and re-emits them after a retry interval, giving up and reporting a
//! delivery failure once the retry budget is exhausted.

use vstd::prelude::*;

use crate::book::{find_addr, has_addr, swept, Connection, ConnectionBook, Entry};
use crate::header::{DatagramHeader, DatagramId};
use crate::messages::{OutDatagram, MAX_MESSAGE_SIZE};

verus! {

/// A tracked message is retransmitted once it has waited this many
/// milliseconds since its last transmission.
pub const RETRY_INTERVAL: u64 = 1000;

/// Number of retransmissions granted to one message before its delivery is
/// reported as failed.
pub const MAX_RETRIES: u32 = 5;

/// One reliable message sent but not yet acknowledged: its id, the payload
/// kept for verbatim re-emission, the time of the most recent transmission
/// and the number of retransmissions so far.
pub struct PendingMessage {
    pub id: DatagramId,
    pub data: Vec<u8>,
    pub sent_at: u64,
    pub retries: u32,
}

/// A delivery failure reported upward: the peer and the id of the message
/// whose retry budget ran out.
#[derive(Clone, Copy, PartialEq, Eq, Structural, Debug)]
pub struct DeliveryFailure {
    pub addr: u64,
    pub id: DatagramId,
}

/// Whether a tracked message is due for retransmission at `time`.
pub open spec fn is_due(m: PendingMessage, time: u64) -> bool {
    m.sent_at + RETRY_INTERVAL <= time
}

/// True when some tracked message carries the id value.
pub open spec fn has_id(msgs: Seq<PendingMessage>, id: u32) -> bool {
    exists|i: int| 0 <= i < msgs.len() && msgs[i].id.spec_value() == id
}

/// The index of the tracked message carrying the id value (ids are unique
/// within one queue).
pub open spec fn find_id(msgs: Seq<PendingMessage>, id: u32) -> int {
    choose|i: int| 0 <= i < msgs.len() && msgs[i].id.spec_value() == id
}

/// The queue after one retransmission pass: messages not yet due stay as
/// they are, due messages with budget left are refreshed (send time reset,
/// retry count incremented) and due messages out of budget are dropped.
pub open spec fn step_queue(msgs: Seq<PendingMessage>, time: u64) -> Seq<PendingMessage>
    decreases msgs.len(),
{
    if msgs.len() == 0 {
        Seq::empty()
    } else {
        let rest = step_queue(msgs.drop_last(), time);
        let m = msgs.last();
        if !is_due(m, time) {
            rest.push(m)
        } else if m.retries < MAX_RETRIES {
            rest.push(
                PendingMessage {
                    id: m.id,
                    data: m.data,
                    sent_at: time,
                    retries: (m.retries + 1) as u32,
                },
            )
        } else {
            rest
        }
    }
}

/// The (id value, payload) pairs re-emitted by one retransmission pass, in
/// queue order: exactly the due messages with budget left.
pub open spec fn resent_pairs(msgs: Seq<PendingMessage>, time: u64) -> Seq<(u32, Seq<u8>)>
    decreases msgs.len(),
{
    if msgs.len() == 0 {
        Seq::empty()
    } else {
        let rest = resent_pairs(msgs.drop_last(), time);
        let m = msgs.last();
        if is_due(m, time) && m.retries < MAX_RETRIES {
            rest.push((m.id.spec_value(), m.data@))
        } else {
            rest
        }
    }
}

/// The failures reported by one retransmission pass for a peer: exactly the
/// due messages out of budget.
pub open spec fn step_failures(msgs: Seq<PendingMessage>, time: u64, addr: u64) -> Seq<
    DeliveryFailure,
>
    decreases msgs.len(),
{
    if msgs.len() == 0 {
        Seq::empty()
    } else {
        let rest = step_failures(msgs.drop_last(), time, addr);
        let m = msgs.last();
        if is_due(m, time) && m.retries >= MAX_RETRIES {
            rest.push(DeliveryFailure { addr, id: m.id })
        } else {
            rest
        }
    }
}

/// The id value a datagram header names (zero for confirmations, which
/// carry none of their own).
pub open spec fn spec_header_id(h: DatagramHeader) -> u32 {
    match h {
        DatagramHeader::Confirmation => 0,
        DatagramHeader::Data { reliable, id } => id.spec_value(),
    }
}

/// The (id value, payload) pairs of the datagrams of `out` addressed to
/// `addr`, in emission order.
pub open spec fn addr_pairs(out: Seq<OutDatagram>, addr: u64) -> Seq<(u32, Seq<u8>)>
    decreases out.len(),
{
    if out.len() == 0 {
        Seq::empty()
    } else {
        let rest = addr_pairs(out.drop_last(), addr);
        if out.last().addr == addr {
            rest.push((spec_header_id(out.last().header), out.last().data@))
        } else {
            rest
        }
    }
}

/// The failures of `f` reported for `addr`, in report order.
pub open spec fn addr_failures(f: Seq<DeliveryFailure>, addr: u64) -> Seq<DeliveryFailure>
    decreases f.len(),
{
    if f.len() == 0 {
        Seq::empty()
    } else {
        let rest = addr_failures(f.drop_last(), addr);
        if f.last().addr == addr {
            rest.push(f.last())
        } else {
            rest
        }
    }
}

/// Per-peer queue of sent-but-unacknowledged reliable messages, in the
/// order they were tracked, with unique ids.
pub struct ResendQueue {
    messages: Vec<PendingMessage>,
}

impl ResendQueue {
    /// The tracked messages, in tracking order.
    pub closed spec fn msgs(&self) -> Seq<PendingMessage> {
        self.messages@
    }

    /// Well-formedness: ids are valid and unique and every payload fits a
    /// datagram.
    pub open spec fn wf(&self) -> bool {
        &&& forall|i: int|
            0 <= i < self.msgs().len() ==> (#[trigger] self.msgs()[i]).id.wf()
                && self.msgs()[i].data@.len() <= MAX_MESSAGE_SIZE
        &&& forall|i: int, j: int|
            0 <= i < j < self.msgs().len() ==> (#[trigger] self.msgs()[i]).id.spec_value() != (
            #[trigger] self.msgs()[j]).id.spec_value()
    }

    /// An empty queue.
    pub fn new() -> (r: ResendQueue)
        ensures
            r.wf(),
            r.msgs().len() == 0,
    {
        ResendQueue { messages: Vec::new() }
    }

    /// Records a message as sent and unacknowledged. Tracking an id that is
    /// already tracked for this peer leaves the queue as it is.
    pub fn track(&mut self, time: u64, id: DatagramId, data: Vec<u8>)
        requires
            old(self).wf(),
            id.wf(),
            data@.len() <= MAX_MESSAGE_SIZE,
        ensures
            final(self).wf(),
            has_id(old(self).msgs(), id.spec_value()) ==> final(self).msgs() == old(self).msgs(),
            !has_id(old(self).msgs(), id.spec_value()) ==> final(self).msgs() == old(
                self,
            ).msgs().push(PendingMessage { id, data, sent_at: time, retries: 0 }),
            has_id(final(self).msgs(), id.spec_value()),
    {
        let n = self.messages.len();
        let mut i: usize = 0;
        while i < n
            invariant
                old(self).wf(),
                i <= n,
                n == self.msgs().len(),
                self == old(self),
                forall|j: int|
                    0 <= j < i ==> (#[trigger] self.msgs()[j]).id.spec_value() != id.spec_value(),
            decreases n - i,
        {
            if self.messages[i].id.to_u32() == id.to_u32() {
                proof {
                    assert(has_id(self.msgs(), id.spec_value()));
                }
                return ;
            }
            i = i + 1;
        }
        proof {
            assert(!has_id(old(self).msgs(), id.spec_value()));
        }
        self.messages.push(PendingMessage { id, data, sent_at: time, retries: 0 });
        proof {
            assert(self.msgs().last().id.spec_value() == id.spec_value());
            assert(has_id(self.msgs(), id.spec_value()));
        }
    }

    /// Removes the message with this id, if one is tracked: a confirmation
    /// arrived. Acknowledging an unknown or already-acknowledged id is a
    /// no-op, since confirmations may be duplicated or delayed.
    pub fn ack(&mut self, id: DatagramId)
        requires
            old(self).wf(),
        ensures
            final(self).wf(),
            has_id(old(self).msgs(), id.spec_value()) ==> final(self).msgs() == old(
                self,
            ).msgs().remove(find_id(old(self).msgs(), id.spec_value())),
            !has_id(old(self).msgs(), id.spec_value()) ==> final(self).msgs() == old(self).msgs(),
            !has_id(final(self).msgs(), id.spec_value()),
    {
        let n = self.messages.len();
        let mut i: usize = 0;
        while i < n
            invariant
                old(self).wf(),
                i <= n,
                n == self.msgs().len(),
                self == old(self),
                forall|j: int|
                    0 <= j < i ==> (#[trigger] self.msgs()[j]).id.spec_value() != id.spec_value(),
            decreases n - i,
        {
            if self.messages[i].id.to_u32() == id.to_u32() {
                proof {
                    assert(self.msgs()[i as int].id.spec_value() == id.spec_value());
                    assert(has_id(self.msgs(), id.spec_value()));
                    let f = find_id(old(self).msgs(), id.spec_value());
                    assert(0 <= f < self.msgs().len() && self.msgs()[f].id.spec_value()
                        == id.spec_value());
                    if f < i as int {
                        assert(old(self).msgs()[f].id.spec_value() != old(self).msgs()[
                            i as int
                        ].id.spec_value());
                    } else if f > i as int {
                        assert(old(self).msgs()[i as int].id.spec_value() != old(self).msgs()[
                            f
                        ].id.spec_value());
                    }
                    assert(f == i as int);
                }
                self.messages.remove(i);
                proof {
                    old(self).msgs().remove_ensures(i as int);
                    assert forall|j: int|
                        0 <= j < self.msgs().len() implies (
                    #[trigger] self.msgs()[j]).id.spec_value() != id.spec_value() by {
                        if j < i as int {
                            assert(self.msgs()[j] == old(self).msgs()[j]);
                        } else {
                            assert(self.msgs()[j] == old(self).msgs()[j + 1]);
                        }
                    }
                    assert forall|j: int|
                        0 <= j < self.msgs().len() implies (#[trigger] self.msgs()[j]).id.wf()
                        && self.msgs()[j].data@.len() <= MAX_MESSAGE_SIZE by {
                        if j < i as int {
                            assert(self.msgs()[j] == old(self).msgs()[j]);
                        } else {
                            assert(self.msgs()[j] == old(self).msgs()[j + 1]);
                        }
                    }
                    assert forall|j: int, j2: int|
                        0 <= j < j2 < self.msgs().len() implies (
                    #[trigger] self.msgs()[j]).id.spec_value() != (
                    #[trigger] self.msgs()[j2]).id.spec_value() by {
                        let a = if j < i as int { j } else { j + 1 };
                        let b = if j2 < i as int { j2 } else { j2 + 1 };
                        assert(self.msgs()[j] == old(self).msgs()[a]);
                        assert(self.msgs()[j2] == old(self).msgs()[b]);
                        assert(old(self).msgs()[a].id.spec_value() != old(self).msgs()[
                            b
                        ].id.spec_value());
                    }
                }
                return ;
            }
            i = i + 1;
        }
        proof {
            assert(!has_id(old(self).msgs(), id.spec_value()));
        }
    }

    /// One retransmission pass over this queue at `time` for peer `addr`:
    /// re-emits every due message with budget left (retry count up, send
    /// time refreshed), drops every due message out of budget and reports
    /// it as failed.
    pub fn resend_due(&mut self, time: u64, addr: u64) -> (r: (
        Vec<OutDatagram>,
        Vec<DeliveryFailure>,
    ))
        requires
            old(self).wf(),
        ensures
            final(self).wf(),
            final(self).msgs() == step_queue(old(self).msgs(), time),
            addr_pairs(r.0@, addr) == resent_pairs(old(self).msgs(), time),
            forall|a: u64| a != addr ==> addr_pairs(r.0@, a).len() == 0,
            r.1@ == step_failures(old(self).msgs(), time, addr),
            forall|i: int| 0 <= i < r.1@.len() ==> (#[trigger] r.1@[i]).addr == addr,
            forall|i: int|
                0 <= i < r.0@.len() ==> {
                    let d = #[trigger] r.0@[i];
                    &&& d.addr == addr
                    &&& d.header is Data
                    &&& d.header.wf()
                    &&& d.data@.len() <= MAX_MESSAGE_SIZE
                },
    {
        let ghost orig = self.messages@;
        let mut out: Vec<OutDatagram> = Vec::new();
        let mut failed: Vec<DeliveryFailure> = Vec::new();
        let mut i: usize = 0;
        let ghost mut j: int = 0;
        while i < self.messages.len()
            invariant
                old(self).wf(),
                orig == old(self).msgs(),
                0 <= j <= orig.len(),
                i as int == step_queue(orig.take(j), time).len(),
                self.msgs() =~= step_queue(orig.take(j), time) + orig.skip(j),
                addr_pairs(out@, addr) == resent_pairs(orig.take(j), time),
                forall|a: u64| a != addr ==> addr_pairs(out@, a).len() == 0,
                failed@ == step_failures(orig.take(j), time, addr),
                forall|k: int| 0 <= k < failed@.len() ==> (#[trigger] failed@[k]).addr == addr,
                forall|k: int|
                    0 <= k < out@.len() ==> {
                        let d = #[trigger] out@[k];
                        &&& d.addr == addr
                        &&& d.header is Data
                        &&& d.header.wf()
                        &&& d.data@.len() <= MAX_MESSAGE_SIZE
                    },
            decreases self.msgs().len() - i,
        {
            proof {
                assert(j < orig.len());
                assert(self.msgs()[i as int] == orig[j]);
                assert(orig.take(j + 1).drop_last() =~= orig.take(j));
                assert(orig.take(j + 1).last() == orig[j]);
            }
            let ghost out_before = out@;
            let due = {
                let m_sent = self.messages[i].sent_at;
                time >= m_sent && time - m_sent >= RETRY_INTERVAL
            };
            if !due {
                proof {
                    assert(!is_due(orig[j], time));
                    assert(step_queue(orig.take(j + 1), time) =~= step_queue(
                        orig.take(j),
                        time,
                    ).push(orig[j]));
                    assert(self.msgs() =~= step_queue(orig.take(j + 1), time) + orig.skip(j + 1));
                    assert(resent_pairs(orig.take(j + 1), time) == resent_pairs(
                        orig.take(j),
                        time,
                    ));
                    assert(step_failures(orig.take(j + 1), time, addr) == step_failures(
                        orig.take(j),
                        time,
                        addr,
                    ));
                    j = j + 1;
                }
                i = i + 1;
            } else if self.messages[i].retries < MAX_RETRIES {
                let id = self.messages[i].id;
                let data = self.messages[i].data.clone();
                let m = &mut self.messages[i];
                m.sent_at = time;
                m.retries = m.retries + 1;
                out.push(
                    OutDatagram::new(DatagramHeader::Data { reliable: true, id }, data, addr),
                );
                proof {
                    let refreshed = PendingMessage {
                        id: orig[j].id,
                        data: orig[j].data,
                        sent_at: time,
                        retries: (orig[j].retries + 1) as u32,
                    };
                    assert(self.msgs()[i as int] == refreshed);
                    assert(step_queue(orig.take(j + 1), time) =~= step_queue(
                        orig.take(j),
                        time,
                    ).push(refreshed));
                    assert(self.msgs() =~= step_queue(orig.take(j + 1), time) + orig.skip(j + 1));
                    assert(out@.drop_last() =~= out_before);
                    assert(out@.last().data@ == orig[j].data@);
                    assert(addr_pairs(out@, addr) =~= addr_pairs(out_before, addr).push(
                        (orig[j].id.spec_value(), orig[j].data@),
                    ));
                    assert(resent_pairs(orig.take(j + 1), time) =~= resent_pairs(
                        orig.take(j),
                        time,
                    ).push((orig[j].id.spec_value(), orig[j].data@)));
                    assert forall|a: u64| a != addr implies addr_pairs(out@, a).len() == 0 by {
                        assert(out@.drop_last() =~= out_before);
                        assert(addr_pairs(out@, a) == addr_pairs(out_before, a));
                    }
                    assert(step_failures(orig.take(j + 1), time, addr) == step_failures(
                        orig.take(j),
                        time,
                        addr,
                    ));
                    j = j + 1;
                }
                i = i + 1;
            } else {
                let id = self.messages[i].id;
                self.messages.remove(i);
                failed.push(DeliveryFailure { addr, id });
                proof {
                    assert(step_queue(orig.take(j + 1), time) =~= step_queue(orig.take(j), time));
                    assert(self.msgs() =~= step_queue(orig.take(j + 1), time) + orig.skip(j + 1));
                    assert(resent_pairs(orig.take(j + 1), time) == resent_pairs(
                        orig.take(j),
                        time,
                    ));
                    assert(failed@ =~= step_failures(orig.take(j + 1), time, addr));
                    j = j + 1;
                }
            }
        }
        proof {
            assert(j == orig.len());
            assert(orig.take(j) =~= orig);
            assert(orig.skip(j) =~= Seq::<PendingMessage>::empty());
            assert(self.msgs() =~= step_queue(orig, time));
            lemma_step_queue_wf(orig, time);
        }
        (out, failed)
    }
}

/// Splitting a datagram list splits its per-peer pair projection.
pub proof fn lemma_addr_pairs_append(a: Seq<OutDatagram>, b: Seq<OutDatagram>)
    ensures
        forall|x: u64| #[trigger] addr_pairs(a + b, x) == addr_pairs(a, x) + addr_pairs(b, x),
    decreases b.len(),
{
    if b.len() == 0 {
        assert forall|x: u64| #[trigger] addr_pairs(a + b, x) == addr_pairs(a, x) + addr_pairs(
            b,
            x,
        ) by {
            assert(a + b =~= a);
            assert(addr_pairs(a + b, x) == addr_pairs(a, x));
            assert(addr_pairs(b, x) =~= Seq::<(u32, Seq<u8>)>::empty());
            assert(addr_pairs(a, x) + addr_pairs(b, x) =~= addr_pairs(a, x));
        }
    } else {
        lemma_addr_pairs_append(a, b.drop_last());
        assert forall|x: u64| #[trigger] addr_pairs(a + b, x) == addr_pairs(a, x) + addr_pairs(
            b,
            x,
        ) by {
            assert((a + b).drop_last() =~= a + b.drop_last());
            assert((a + b).last() == b.last());
            assert((a + b).len() == a.len() + b.len());
            assert(addr_pairs(a + b.drop_last(), x) == addr_pairs(a, x) + addr_pairs(
                b.drop_last(),
                x,
            ));
            if b.last().addr == x {
                let p = (spec_header_id(b.last().header), b.last().data@);
                assert(addr_pairs(a + b, x) == addr_pairs((a + b).drop_last(), x).push(p));
                assert(addr_pairs(b, x) == addr_pairs(b.drop_last(), x).push(p));
                assert(addr_pairs(a, x) + addr_pairs(b, x) =~= (addr_pairs(a, x) + addr_pairs(
                    b.drop_last(),
                    x,
                )).push(p));
            } else {
                assert(addr_pairs(a + b, x) == addr_pairs((a + b).drop_last(), x));
                assert(addr_pairs(b, x) == addr_pairs(b.drop_last(), x));
            }
        }
    }
}

/// Splitting a failure list splits its per-peer projection.
pub proof fn lemma_addr_failures_append(a: Seq<DeliveryFailure>, b: Seq<DeliveryFailure>)
    ensures
        forall|x: u64| #[trigger] addr_failures(a + b, x) == addr_failures(a, x) + addr_failures(
            b,
            x,
        ),
    decreases b.len(),
{
    if b.len() == 0 {
        assert forall|x: u64| #[trigger] addr_failures(a + b, x) == addr_failures(a, x)
            + addr_failures(b, x) by {
            assert(a + b =~= a);
            assert(addr_failures(a + b, x) == addr_failures(a, x));
            assert(addr_failures(b, x) =~= Seq::<DeliveryFailure>::empty());
            assert(addr_failures(a, x) + addr_failures(b, x) =~= addr_failures(a, x));
        }
    } else {
        lemma_addr_failures_append(a, b.drop_last());
        assert forall|x: u64| #[trigger] addr_failures(a + b, x) == addr_failures(a, x)
            + addr_failures(b, x) by {
            assert((a + b).drop_last() =~= a + b.drop_last());
            assert((a + b).last() == b.last());
            assert((a + b).len() == a.len() + b.len());
            assert(addr_failures(a + b.drop_last(), x) == addr_failures(a, x) + addr_failures(
                b.drop_last(),
                x,
            ));
            if b.last().addr == x {
                assert(addr_failures(a + b, x) == addr_failures((a + b).drop_last(), x).push(
                    b.last(),
                ));
                assert(addr_failures(b, x) == addr_failures(b.drop_last(), x).push(b.last()));
                assert(addr_failures(a, x) + addr_failures(b, x) =~= (addr_failures(a, x)
                    + addr_failures(b.drop_last(), x)).push(b.last()));
            } else {
                assert(addr_failures(a + b, x) == addr_failures((a + b).drop_last(), x));
                assert(addr_failures(b, x) == addr_failures(b.drop_last(), x));
            }
        }
    }
}

/// A failure list reported for one peer projects to itself for that peer
/// and to nothing for any other.
pub proof fn lemma_addr_failures_homog(f: Seq<DeliveryFailure>, a0: u64)
    requires
        forall|i: int| 0 <= i < f.len() ==> (#[trigger] f[i]).addr == a0,
    ensures
        addr_failures(f, a0) == f,
        forall|x: u64| x != a0 ==> addr_failures(f, x).len() == 0,
    decreases f.len(),
{
    if f.len() == 0 {
        assert(addr_failures(f, a0) =~= f);
        assert forall|x: u64| x != a0 implies addr_failures(f, x).len() == 0 by {
            assert(addr_failures(f, x) =~= Seq::<DeliveryFailure>::empty());
        }
    } else {
        assert forall|i: int| 0 <= i < f.drop_last().len() implies (
        #[trigger] f.drop_last()[i]).addr == a0 by {
            assert(f[i].addr == a0);
        }
        lemma_addr_failures_homog(f.drop_last(), a0);
        assert(f[f.len() - 1].addr == a0);
        assert(addr_failures(f, a0) =~= f);
        assert forall|x: u64| x != a0 implies addr_failures(f, x).len() == 0 by {
            assert(f.last().addr != x);
            assert(addr_failures(f, x) == addr_failures(f.drop_last(), x));
        }
    }
}

/// The retransmission engine: a connection book of per-peer resend queues.
pub struct Resends {
    book: ConnectionBook<ResendQueue>,
}

impl Connection for ResendQueue {
    open spec fn inv(&self) -> bool {
        self.wf()
    }

    open spec fn spec_pending(&self) -> bool {
        self.msgs().len() > 0
    }

    fn pending(&self) -> (r: bool) {
        !self.messages.is_empty()
    }

    fn fresh() -> (s: Self) {
        ResendQueue::new()
    }
}

impl Resends {
    /// The per-peer entries of the engine's connection book.
    pub closed spec fn peers(&self) -> Seq<Entry<ResendQueue>> {
        self.book@
    }

    /// Well-formedness: the book is well formed and the round-robin sweep
    /// rests at the start.
    pub closed spec fn wf(&self) -> bool {
        &&& self.book.wf()
        &&& self.book.sweep_pos() == 0
    }

    /// An engine with no known peers.
    pub fn new() -> (r: Resends)
        ensures
            r.wf(),
            r.peers().len() == 0,
    {
        Resends { book: ConnectionBook::new() }
    }

    /// Records a reliable message as sent and unacknowledged for `addr`,
    /// keeping the payload for verbatim re-emission, and touches the peer
    /// at `time`. Tracking an id already tracked for the peer changes no
    /// queue.
    pub fn track(&mut self, time: u64, addr: u64, id: DatagramId, data: Vec<u8>)
        requires
            old(self).wf(),
            id.wf(),
            data@.len() <= MAX_MESSAGE_SIZE,
        ensures
            final(self).wf(),
            has_addr(final(self).peers(), addr),
            has_addr(old(self).peers(), addr) ==> ({
                let s0 = old(self).peers();
                let s1 = final(self).peers();
                let i = find_addr(s0, addr);
                &&& s1.len() == s0.len()
                &&& forall|k: int| 0 <= k < s1.len() && k != i ==> (#[trigger] s1[k]) == s0[k]
                &&& s1[i].addr == addr
                &&& s1[i].last_touched == time
                &&& (has_id(s0[i].state.msgs(), id.spec_value()) ==> s1[i].state.msgs() == s0[i].state.msgs())
                &&& (!has_id(s0[i].state.msgs(), id.spec_value()) ==> s1[i].state.msgs() == s0[i].state.msgs().push(
                    PendingMessage { id, data, sent_at: time, retries: 0 },
                ))
                &&& has_id(s1[i].state.msgs(), id.spec_value())
            }),
            !has_addr(old(self).peers(), addr) ==> ({
                let s0 = old(self).peers();
                let s1 = final(self).peers();
                &&& s1.len() == s0.len() + 1
                &&& forall|k: int| 0 <= k < s0.len() ==> (#[trigger] s1[k]) == s0[k]
                &&& s1[s0.len() as int].addr == addr
                &&& s1[s0.len() as int].last_touched == time
                &&& s1[s0.len() as int].state.msgs().len() == 1
                &&& s1[s0.len() as int].state.msgs()[0] == (PendingMessage {
                    id,
                    data,
                    sent_at: time,
                    retries: 0,
                })
            }),
    {
        let queue = self.book.update(time, addr);
        queue.track(time, id, data);
    }

    /// Handles a confirmation naming `id` for `addr`: the message is no
    /// longer tracked afterwards. Unknown peers, unknown ids and repeated
    /// acknowledgments are no-ops, since confirmations may be duplicated,
    /// delayed or reordered. No last-touched time changes.
    pub fn acknowledge(&mut self, addr: u64, id: DatagramId)
        requires
            old(self).wf(),
        ensures
            final(self).wf(),
            !has_addr(old(self).peers(), addr) ==> final(self).peers() == old(self).peers(),
            has_addr(old(self).peers(), addr) ==> ({
                let s0 = old(self).peers();
                let s1 = final(self).peers();
                let i = find_addr(s0, addr);
                &&& s1.len() == s0.len()
                &&& forall|k: int| 0 <= k < s1.len() && k != i ==> (#[trigger] s1[k]) == s0[k]
                &&& s1[i].addr == addr
                &&& s1[i].last_touched == s0[i].last_touched
                &&& (has_id(s0[i].state.msgs(), id.spec_value()) ==> s1[i].state.msgs() == s0[i].state.msgs().remove(
                    find_id(s0[i].state.msgs(), id.spec_value()),
                ))
                &&& (!has_id(s0[i].state.msgs(), id.spec_value()) ==> s1[i].state.msgs() == s0[i].state.msgs())
                &&& !has_id(s1[i].state.msgs(), id.spec_value())
            }),
    {
        if self.book.contains(addr) {
            let queue = self.book.state_mut(addr);
            queue.ack(id);
        }
    }

    /// One retransmission pass at `time` over every peer: re-emits every
    /// due tracked message with budget left as a reliable data datagram,
    /// drops every due message out of budget and reports it as a delivery
    /// failure, exactly once. No last-touched time changes; idle peers are
    /// removed only by `clean`. The caller hands the datagrams to the
    /// outbound channel; a failure there is the caller's to handle.
    #[verifier::rlimit(60)]
    pub fn resend_due(&mut self, time: u64) -> (r: (Vec<OutDatagram>, Vec<DeliveryFailure>))
        requires
            old(self).wf(),
        ensures
            final(self).wf(),
            final(self).peers().len() == old(self).peers().len(),
            forall|k: int|
                0 <= k < old(self).peers().len() ==> {
                    let e0 = #[trigger] old(self).peers()[k];
                    let e1 = final(self).peers()[k];
                    &&& e1.addr == e0.addr
                    &&& e1.last_touched == e0.last_touched
                    &&& e1.state.msgs() == step_queue(e0.state.msgs(), time)
                    &&& addr_pairs(r.0@, e0.addr) == resent_pairs(e0.state.msgs(), time)
                    &&& addr_failures(r.1@, e0.addr) == step_failures(e0.state.msgs(), time, e0.addr)
                },
            forall|i: int|
                0 <= i < r.0@.len() ==> {
                    let d = #[trigger] r.0@[i];
                    &&& d.header is Data
                    &&& d.header.wf()
                    &&& d.data@.len() <= MAX_MESSAGE_SIZE
                    &&& has_addr(old(self).peers(), d.addr)
                },
            forall|i: int|
                0 <= i < r.1@.len() ==> has_addr(old(self).peers(), (#[trigger] r.1@[i]).addr),
    {
        let ghost s_start = self.book@;
        let mut out: Vec<OutDatagram> = Vec::new();
        let mut failed: Vec<DeliveryFailure> = Vec::new();
        let n = self.book.len();
        let mut c: usize = 0;
        while c < n
            invariant
                old(self).wf(),
                s_start == old(self).book@,
                self.book.wf(),
                n == s_start.len(),
                self.book@.len() == n,
                c <= n,
                self.book.sweep_pos() == c,
                forall|k: int| 0 <= k < n ==> (#[trigger] self.book@[k]).addr == s_start[k].addr,
                forall|k: int| c <= k < n ==> (#[trigger] self.book@[k]) == s_start[k],
                forall|k: int|
                    0 <= k < c ==> {
                        let e0 = #[trigger] s_start[k];
                        let e1 = self.book@[k];
                        &&& e1.last_touched == e0.last_touched
                        &&& e1.state.msgs() == step_queue(e0.state.msgs(), time)
                        &&& addr_pairs(out@, e0.addr) == resent_pairs(e0.state.msgs(), time)
                        &&& addr_failures(failed@, e0.addr) == step_failures(
                            e0.state.msgs(),
                            time,
                            e0.addr,
                        )
                    },
                forall|k: int|
                    c <= k < n ==> addr_pairs(out@, (#[trigger] s_start[k]).addr).len() == 0
                        && addr_failures(failed@, s_start[k].addr).len() == 0,
                forall|i: int|
                    0 <= i < out@.len() ==> {
                        let d = #[trigger] out@[i];
                        &&& d.header is Data
                        &&& d.header.wf()
                        &&& d.data@.len() <= MAX_MESSAGE_SIZE
                        &&& has_addr(s_start, d.addr)
                    },
                forall|i: int|
                    0 <= i < failed@.len() ==> has_addr(s_start, (#[trigger] failed@[i]).addr),
            decreases n - c,
        {
            let ghost k = c as int;
            let addr_opt = self.book.next();
            let addr = match addr_opt {
                Some(a) => a,
                None => {
                    proof {
                        assert(false);
                    }
                    0
                },
            };
            proof {
                assert(addr == s_start[k].addr);
                assert(has_addr(self.book@, addr));
                let f = find_addr(self.book@, addr);
                assert(0 <= f < self.book@.len() && self.book@[f].addr == addr);
                assert(f == k);
            }
            let ghost out_before = out@;
            let ghost failed_before = failed@;
            let queue = self.book.state_mut(addr);
            let mut parts = queue.resend_due(time, addr);
            let ghost p0 = parts.0@;
            let ghost f0 = parts.1@;
            out.append(&mut parts.0);
            failed.append(&mut parts.1);
            proof {
                assert(out@ == out_before + p0);
                assert(failed@ == failed_before + f0);
                lemma_addr_pairs_append(out_before, p0);
                lemma_addr_failures_append(failed_before, f0);
                lemma_addr_failures_homog(f0, addr);
                assert forall|a: u64| a != addr implies addr_pairs(out@, a) == addr_pairs(
                    out_before,
                    a,
                ) && addr_failures(failed@, a) == addr_failures(failed_before, a) by {
                    assert(addr_pairs(p0, a).len() == 0);
                    assert(addr_pairs(out_before, a) + addr_pairs(p0, a) =~= addr_pairs(
                        out_before,
                        a,
                    ));
                    assert(addr_failures(f0, a).len() == 0);
                    assert(addr_failures(failed_before, a) + addr_failures(f0, a) =~= addr_failures(
                        failed_before,
                        a,
                    ));
                }
                assert(addr_pairs(out_before, addr).len() == 0);
                assert(addr_pairs(out_before, addr) + addr_pairs(p0, addr) =~= addr_pairs(
                    p0,
                    addr,
                ));
                assert(addr_pairs(out@, addr) == resent_pairs(s_start[k].state.msgs(), time));
                assert(addr_failures(failed_before, addr).len() == 0);
                assert(addr_failures(failed_before, addr) + addr_failures(f0, addr)
                    =~= addr_failures(f0, addr));
                assert(addr_failures(failed@, addr) == step_failures(
                    s_start[k].state.msgs(),
                    time,
                    addr,
                ));
            }
            c = c + 1;
        }
        match self.book.next() {
            None => {},
            Some(a) => {
                proof {
                    assert(false);
                }
            },
        }
        (out, failed)
    }

    /// Drops every peer with no tracked messages whose last touch lies
    /// beyond the staleness window; a peer with outstanding messages stays
    /// regardless of age.
    pub fn clean(&mut self, time: u64)
        requires
            old(self).wf(),
        ensures
            final(self).wf(),
            final(self).peers() == swept(old(self).peers(), time),
    {
        self.book.clean(time);
    }
}

/// A retransmission pass keeps a queue well formed: refreshed messages keep
/// their ids, dropped messages only shrink the set.
pub proof fn lemma_step_queue_wf(msgs: Seq<PendingMessage>, time: u64)
    requires
        forall|i: int|
            0 <= i < msgs.len() ==> (#[trigger] msgs[i]).id.wf() && msgs[i].data@.len()
                <= MAX_MESSAGE_SIZE,
        forall|i: int, j: int|
            0 <= i < j < msgs.len() ==> (#[trigger] msgs[i]).id.spec_value() != (
            #[trigger] msgs[j]).id.spec_value(),
    ensures
        forall|i: int|
            0 <= i < step_queue(msgs, time).len() ==> (#[trigger] step_queue(
                msgs,
                time,
            )[i]).id.wf() && step_queue(msgs, time)[i].data@.len() <= MAX_MESSAGE_SIZE,
        forall|i: int, j: int|
            0 <= i < j < step_queue(msgs, time).len() ==> (#[trigger] step_queue(
                msgs,
                time,
            )[i]).id.spec_value() != (#[trigger] step_queue(msgs, time)[j]).id.spec_value(),
        forall|i: int|
            0 <= i < step_queue(msgs, time).len() ==> exists|k: int|
                0 <= k < msgs.len() && (#[trigger] step_queue(msgs, time)[i]).id.spec_value()
                    == msgs[k].id.spec_value(),
        forall|v: u32| !has_id(msgs, v) ==> !has_id(step_queue(msgs, time), v),
    decreases msgs.len(),
{
    if msgs.len() > 0 {
        let prefix = msgs.drop_last();
        lemma_step_queue_wf(prefix, time);
        let rest = step_queue(prefix, time);
        assert forall|i: int|
            0 <= i < step_queue(msgs, time).len() implies exists|k: int|
            0 <= k < msgs.len() && (#[trigger] step_queue(msgs, time)[i]).id.spec_value()
                == msgs[k].id.spec_value() by {
            if i < rest.len() {
                let k = choose|k: int|
                    0 <= k < prefix.len() && (#[trigger] rest[i]).id.spec_value()
                        == prefix[k].id.spec_value();
                assert(msgs[k].id.spec_value() == step_queue(msgs, time)[i].id.spec_value());
            } else {
                assert(step_queue(msgs, time)[i].id.spec_value() == msgs[msgs.len()
                    - 1].id.spec_value());
            }
        }
        assert forall|i: int, j: int|
            0 <= i < j < step_queue(msgs, time).len() implies (#[trigger] step_queue(
            msgs,
            time,
        )[i]).id.spec_value() != (#[trigger] step_queue(msgs, time)[j]).id.spec_value() by {
            if j == step_queue(msgs, time).len() - 1 && j >= rest.len() {
                let k = choose|k: int|
                    0 <= k < prefix.len() && (#[trigger] rest[i]).id.spec_value()
                        == prefix[k].id.spec_value();
                assert(msgs[k].id.spec_value() != msgs[msgs.len() - 1].id.spec_value());
            }
        }
    }
}

/// An acknowledged message is never retransmitted: a queue that no longer
/// tracks an id emits no resend carrying it.
pub proof fn lemma_acked_never_resent(msgs: Seq<PendingMessage>, time: u64, v: u32)
    requires
        !has_id(msgs, v),
    ensures
        forall|i: int|
            0 <= i < resent_pairs(msgs, time).len() ==> (#[trigger] resent_pairs(
                msgs,
                time,
            )[i]).0 != v,
    decreases msgs.len(),
{
    if msgs.len() > 0 {
        let prefix = msgs.drop_last();
        assert(!has_id(prefix, v)) by {
            if has_id(prefix, v) {
                let k = choose|k: int| 0 <= k < prefix.len() && prefix[k].id.spec_value() == v;
                assert(msgs[k].id.spec_value() == v);
            }
        }
        lemma_acked_never_resent(prefix, time, v);
        assert(msgs[msgs.len() - 1].id.spec_value() != v);
        let rp = resent_pairs(msgs, time);
        let rp0 = resent_pairs(prefix, time);
        assert forall|i: int| 0 <= i < rp.len() implies (#[trigger] rp[i]).0 != v by {
            if i < rp0.len() {
                assert(rp[i] == rp0[i]);
            } else {
                assert(rp[i].0 == msgs[msgs.len() - 1].id.spec_value());
            }
        }
    }
}

/// A message out of budget is dropped and reported exactly once: after a
/// pass at a time when it is due with its budget exhausted, it is no longer
/// tracked, and the failure list of the pass names its id exactly once.
pub proof fn lemma_failure_reported_once(msgs: Seq<PendingMessage>, time: u64, addr: u64, v: u32)
    requires
        forall|i: int, j: int|
            0 <= i < j < msgs.len() ==> (#[trigger] msgs[i]).id.spec_value() != (
            #[trigger] msgs[j]).id.spec_value(),
        has_id(msgs, v),
        is_due(msgs[find_id(msgs, v)], time),
        msgs[find_id(msgs, v)].retries >= MAX_RETRIES,
    ensures
        !has_id(step_queue(msgs, time), v),
        exists|i: int|
            0 <= i < step_failures(msgs, time, addr).len() && (#[trigger] step_failures(
                msgs,
                time,
                addr,
            )[i]).id.spec_value() == v && forall|j: int|
                0 <= j < step_failures(msgs, time, addr).len() && j != i ==> (
                #[trigger] step_failures(msgs, time, addr)[j]).id.spec_value() != v,
    decreases msgs.len(),
{
    lemma_step_queue_wf_weak(msgs, time, v);
    lemma_failures_membership(msgs, time, addr, v);
}

/// Helper: a pass never invents an id, so an id dropped by the pass is gone.
proof fn lemma_step_queue_wf_weak(msgs: Seq<PendingMessage>, time: u64, v: u32)
    requires
        forall|i: int, j: int|
            0 <= i < j < msgs.len() ==> (#[trigger] msgs[i]).id.spec_value() != (
            #[trigger] msgs[j]).id.spec_value(),
        has_id(msgs, v),
        is_due(msgs[find_id(msgs, v)], time),
        msgs[find_id(msgs, v)].retries >= MAX_RETRIES,
    ensures
        !has_id(step_queue(msgs, time), v),
    decreases msgs.len(),
{
    let n = msgs.len();
    let f = find_id(msgs, v);
    assert(0 <= f < n && msgs[f].id.spec_value() == v);
    let prefix = msgs.drop_last();
    if f == n - 1 {
        assert(step_queue(msgs, time) == step_queue(prefix, time));
        assert(!has_id(prefix, v)) by {
            if has_id(prefix, v) {
                let k = choose|k: int| 0 <= k < prefix.len() && prefix[k].id.spec_value() == v;
                assert(msgs[k].id.spec_value() == msgs[f].id.spec_value());
            }
        }
        lemma_step_no_new_ids(prefix, time, v);
    } else {
        assert(has_id(prefix, v)) by {
            assert(prefix[f].id.spec_value() == v);
        }
        assert(find_id(prefix, v) == f) by {
            let g = find_id(prefix, v);
            assert(0 <= g < prefix.len() && prefix[g].id.spec_value() == v);
            assert(msgs[g].id.spec_value() == v);
            if g != f {
                assert(msgs[g].id.spec_value() != msgs[f].id.spec_value());
            }
        }
        lemma_step_queue_wf_weak(prefix, time, v);
        assert(msgs[n - 1].id.spec_value() != v);
    }
}

/// Helper: a pass emits no id that the queue does not track.
proof fn lemma_step_no_new_ids(msgs: Seq<PendingMessage>, time: u64, v: u32)
    requires
        !has_id(msgs, v),
    ensures
        !has_id(step_queue(msgs, time), v),
    decreases msgs.len(),
{
    if msgs.len() > 0 {
        let prefix = msgs.drop_last();
        assert(!has_id(prefix, v)) by {
            if has_id(prefix, v) {
                let k = choose|k: int| 0 <= k < prefix.len() && prefix[k].id.spec_value() == v;
                assert(msgs[k].id.spec_value() == v);
            }
        }
        lemma_step_no_new_ids(prefix, time, v);
        assert(msgs[msgs.len() - 1].id.spec_value() != v);
    }
}

/// Helper: the failure list of one pass names a tracked, due, out-of-budget
/// id exactly once.
proof fn lemma_failures_membership(msgs: Seq<PendingMessage>, time: u64, addr: u64, v: u32)
    requires
        forall|i: int, j: int|
            0 <= i < j < msgs.len() ==> (#[trigger] msgs[i]).id.spec_value() != (
            #[trigger] msgs[j]).id.spec_value(),
        has_id(msgs, v),
        is_due(msgs[find_id(msgs, v)], time),
        msgs[find_id(msgs, v)].retries >= MAX_RETRIES,
    ensures
        exists|i: int|
            0 <= i < step_failures(msgs, time, addr).len() && (#[trigger] step_failures(
                msgs,
                time,
                addr,
            )[i]).id.spec_value() == v && forall|j: int|
                0 <= j < step_failures(msgs, time, addr).len() && j != i ==> (
                #[trigger] step_failures(msgs, time, addr)[j]).id.spec_value() != v,
    decreases msgs.len(),
{
    let n = msgs.len();
    let f = find_id(msgs, v);
    assert(0 <= f < n && msgs[f].id.spec_value() == v);
    let prefix = msgs.drop_last();
    let fs = step_failures(msgs, time, addr);
    let fs0 = step_failures(prefix, time, addr);
    if f == n - 1 {
        assert(!has_id(prefix, v)) by {
            if has_id(prefix, v) {
                let k = choose|k: int| 0 <= k < prefix.len() && prefix[k].id.spec_value() == v;
                assert(msgs[k].id.spec_value() == msgs[f].id.spec_value());
            }
        }
        lemma_failures_no_foreign_ids(prefix, time, addr, v);
        assert(fs == fs0.push(DeliveryFailure { addr, id: msgs[f].id }));
        let i = fs.len() - 1;
        assert(fs[i].id.spec_value() == v);
        assert forall|j: int| 0 <= j < fs.len() && j != i implies (
        #[trigger] fs[j]).id.spec_value() != v by {
            assert(fs[j] == fs0[j]);
        }
    } else {
        assert(has_id(prefix, v)) by {
            assert(prefix[f].id.spec_value() == v);
        }
        assert(find_id(prefix, v) == f) by {
            let g = find_id(prefix, v);
            assert(0 <= g < prefix.len() && prefix[g].id.spec_value() == v);
            if g != f {
                assert(msgs[g].id.spec_value() != msgs[f].id.spec_value());
            }
        }
        lemma_failures_membership(prefix, time, addr, v);
        let i = choose|i: int|
            0 <= i < fs0.len() && (#[trigger] fs0[i]).id.spec_value() == v && forall|j: int|
                0 <= j < fs0.len() && j != i ==> (#[trigger] fs0[j]).id.spec_value() != v;
        assert(msgs[n - 1].id.spec_value() != v);
        assert(fs[i].id.spec_value() == v);
        assert forall|j: int| 0 <= j < fs.len() && j != i implies (
        #[trigger] fs[j]).id.spec_value() != v by {
            if j < fs0.len() {
                assert(fs[j] == fs0[j]);
            } else {
                assert(fs[j].id == msgs[n - 1].id);
            }
        }
    }
}

/// Helper: the failure list names no id the queue does not track.
proof fn lemma_failures_no_foreign_ids(msgs: Seq<PendingMessage>, time: u64, addr: u64, v: u32)
    requires
        !has_id(msgs, v),
    ensures
        forall|j: int|
            0 <= j < step_failures(msgs, time, addr).len() ==> (#[trigger] step_failures(
                msgs,
                time,
                addr,
            )[j]).id.spec_value() != v,
    decreases msgs.len(),
{
    if msgs.len() > 0 {
        let prefix = msgs.drop_last();
        assert(!has_id(prefix, v)) by {
            if has_id(prefix, v) {
                let k = choose|k: int| 0 <= k < prefix.len() && prefix[k].id.spec_value() == v;
                assert(msgs[k].id.spec_value() == v);
            }
        }
        lemma_failures_no_foreign_ids(prefix, time, addr, v);
        assert(msgs[msgs.len() - 1].id.spec_value() != v);
        let fs = step_failures(msgs, time, addr);
        let fs0 = step_failures(prefix, time, addr);
        assert forall|j: int| 0 <= j < fs.len() implies (#[trigger] fs[j]).id.spec_value()
            != v by {
            if j < fs0.len() {
                assert(fs[j] == fs0[j]);
            } else {
                assert(fs[j].id == msgs[msgs.len() - 1].id);
            }
        }
    }
}

} // verus!

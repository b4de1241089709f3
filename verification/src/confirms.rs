//! Confirmation batching: per-peer byte buffers of packed reliable-message
//! ids and the engine that drains them into confirmation datagrams when a
//! size or age threshold is crossed.

use vstd::prelude::*;
use vstd::math::min;

use crate::book::{find_addr, has_addr, swept, Connection, ConnectionBook, Entry};
use crate::header::{id_bytes, DatagramId, DatagramHeader};
use crate::messages::{OutDatagram, MAX_MESSAGE_SIZE};

verus! {

/// A buffer is ready to flush once it has grown to at least this many
/// bytes. Each id takes three bytes, so this is a multiple of three.
pub const MAX_BUFF_SIZE: usize = 96;

/// A buffer is ready to flush once its oldest unflushed entry is at least
/// this many milliseconds old.
pub const MAX_BUFF_AGE: u64 = 100;

/// The largest multiple of four not above `n`: the cap handed to `flush` is
/// aligned down this way before a chunk is carved.
pub open spec fn align_down4(n: int) -> int {
    n - n % 4
}

/// Append-only byte buffer of packed reliable-message ids awaiting
/// transmission as confirmation datagrams.
///
/// The raw byte buffer carries, next to the bytes themselves, a boundary
/// `flushed`: the prefix up to the boundary is still pending, while the
/// suffix past it was handed out by the previous `flush` call and is
/// discarded by the next `flush` or `push`, so it is never emitted twice.
/// `oldest` is the push time of the oldest entry appended while nothing
/// was pending.
pub struct Buffer {
    oldest: u64,
    buffer: Vec<u8>,
    flushed: usize,
}

impl Buffer {
    /// All bytes currently held, the previously returned suffix included.
    pub closed spec fn bytes(&self) -> Seq<u8> {
        self.buffer@
    }

    /// Boundary between pending bytes and the suffix returned by the
    /// previous `flush` call.
    pub closed spec fn flushed_to(&self) -> int {
        self.flushed as int
    }

    /// Push time of the oldest entry appended to an empty buffer.
    pub closed spec fn oldest_time(&self) -> u64 {
        self.oldest
    }

    /// The bytes not yet committed to a previous `flush` result.
    pub open spec fn pending_bytes(&self) -> Seq<u8> {
        self.bytes().take(self.flushed_to())
    }

    /// Well-formedness: the flush boundary lies within the buffer.
    pub open spec fn wf(&self) -> bool {
        0 <= self.flushed_to() <= self.bytes().len()
    }

    /// An empty buffer with no pending bytes.
    pub fn new() -> (r: Buffer)
        ensures
            r.wf(),
            r.bytes().len() == 0,
            r.flushed_to() == 0,
            r.oldest_time() == 0,
    {
        Buffer { oldest: 0, buffer: Vec::new(), flushed: 0 }
    }

    /// Discards the suffix committed to the previous `flush` result, then
    /// appends the three-byte encoding of `id`: bytes already handed out
    /// by a partial drain are never re-emitted. The oldest-entry time
    /// resets to `time` only when no bytes were pending.
    pub fn push(&mut self, time: u64, id: DatagramId)
        requires
            old(self).wf(),
            id.wf(),
        ensures
            final(self).wf(),
            final(self).bytes() == old(self).pending_bytes() + id_bytes(id.spec_value()),
            final(self).flushed_to() == final(self).bytes().len(),
            final(self).pending_bytes() == final(self).bytes(),
            final(self).oldest_time() == if old(self).pending_bytes().len() == 0 {
                time
            } else {
                old(self).oldest_time()
            },
    {
        self.buffer.truncate(self.flushed);
        proof {
            assert(self.buffer@ =~= old(self).pending_bytes());
        }
        if self.buffer.is_empty() {
            self.oldest = time;
        }
        let enc = id.to_bytes();
        self.buffer.push(enc[0]);
        self.buffer.push(enc[1]);
        self.buffer.push(enc[2]);
        self.flushed = self.buffer.len();
        proof {
            assert(self.buffer@ =~= old(self).pending_bytes() + id_bytes(id.spec_value()));
            assert(self.pending_bytes() =~= self.bytes());
        }
    }

    /// Readiness to flush: the buffer holds bytes and is either old enough
    /// or large enough.
    pub open spec fn is_ready(&self, time: u64) -> bool {
        self.bytes().len() > 0 && (self.oldest_time() + MAX_BUFF_AGE <= time || self.bytes().len()
            >= MAX_BUFF_SIZE)
    }

    /// Returns true if the buffer is ready to be flushed (too old or too
    /// large).
    pub fn ready(&self, time: u64) -> (r: bool)
        ensures
            r == self.is_ready(time),
    {
        if self.buffer.is_empty() {
            return false;
        }
        (time >= self.oldest && time - self.oldest >= MAX_BUFF_AGE) || self.buffer.len()
            >= MAX_BUFF_SIZE
    }

    /// Discards the suffix committed to the previous `flush` result, then
    /// carves a chunk of at most `max_size` bytes (aligned down to a
    /// multiple of four) off the pending tail and returns it; `None` once
    /// nothing is pending. Call repeatedly until `None` to drain fully.
    /// The cap must admit at least one aligned byte group, else no drain
    /// could make progress.
    pub fn flush(&mut self, max_size: usize) -> (r: Option<Vec<u8>>)
        requires
            old(self).wf(),
            4 <= max_size,
        ensures
            final(self).wf(),
            final(self).oldest_time() == old(self).oldest_time(),
            final(self).bytes() == old(self).pending_bytes(),
            old(self).pending_bytes().len() == 0 ==> r is None && final(self).bytes().len() == 0
                && final(self).flushed_to() == 0,
            old(self).pending_bytes().len() > 0 ==> {
                let pend = old(self).pending_bytes();
                let size = min(pend.len() as int, align_down4(max_size as int));
                &&& r is Some
                &&& r->Some_0@.len() > 0
                &&& r->Some_0@ == pend.skip(pend.len() - size)
                &&& final(self).flushed_to() == pend.len() - size
                &&& final(self).pending_bytes() == pend.take(pend.len() - size)
            },
    {
        self.buffer.truncate(self.flushed);
        proof {
            assert(self.buffer@ =~= old(self).pending_bytes());
        }
        if self.buffer.is_empty() {
            None
        } else {
            let aligned = max_size - max_size % 4;
            let size = if self.buffer.len() < aligned {
                self.buffer.len()
            } else {
                aligned
            };
            self.flushed = self.buffer.len() - size;
            let mut out: Vec<u8> = Vec::new();
            let mut i: usize = self.flushed;
            while i < self.buffer.len()
                invariant
                    self.flushed <= i <= self.buffer@.len(),
                    out@ == self.buffer@.subrange(self.flushed as int, i as int),
                decreases self.buffer@.len() - i,
            {
                out.push(self.buffer[i]);
                i = i + 1;
                proof {
                    assert(out@ =~= self.buffer@.subrange(self.flushed as int, i as int));
                }
            }
            proof {
                let pend = old(self).pending_bytes();
                assert(out@ =~= pend.skip(pend.len() - min(
                    pend.len() as int,
                    align_down4(max_size as int),
                )));
            }
            Some(out)
        }
    }
}

impl Connection for Buffer {
    open spec fn inv(&self) -> bool {
        self.wf()
    }

    open spec fn spec_pending(&self) -> bool {
        self.bytes().len() > 0
    }

    fn pending(&self) -> (r: bool) {
        !self.buffer.is_empty()
    }

    fn fresh() -> (s: Self) {
        Buffer::new()
    }
}

/// A buffer as it stands between engine passes: nothing half drained (the
/// whole buffer is pending) and an exact run of three-byte id encodings.
pub open spec fn settled(b: Buffer) -> bool {
    b.flushed_to() == b.bytes().len() && b.bytes().len() % 3 == 0
}

/// The payloads of the datagrams of `out` addressed to `addr`, in emission
/// order.
pub open spec fn addr_data(out: Seq<OutDatagram>, addr: u64) -> Seq<Seq<u8>>
    decreases out.len(),
{
    if out.len() == 0 {
        Seq::empty()
    } else {
        let rest = addr_data(out.drop_last(), addr);
        if out.last().addr == addr {
            rest.push(out.last().data@)
        } else {
            rest
        }
    }
}

/// The confirmation engine: accumulates the ids of delivered reliable
/// messages per peer and drains them as confirmation datagrams once a
/// peer's buffer is ready.
pub struct Confirmations {
    book: ConnectionBook<Buffer>,
}

impl Confirmations {
    /// The per-peer entries of the engine's connection book.
    pub closed spec fn peers(&self) -> Seq<Entry<Buffer>> {
        self.book@
    }

    /// Well-formedness: the book is well formed, the round-robin sweep
    /// rests at the start and every buffer is settled between passes.
    pub closed spec fn wf(&self) -> bool {
        &&& self.book.wf()
        &&& self.book.sweep_pos() == 0
        &&& forall|i: int| 0 <= i < self.book@.len() ==> settled((#[trigger] self.book@[i]).state)
    }

    /// An engine with no known peers.
    pub fn new() -> (r: Confirmations)
        ensures
            r.wf(),
            r.peers().len() == 0,
    {
        Confirmations { book: ConnectionBook::new() }
    }

    /// Marks a reliable message `id` from `addr` as received, to be called
    /// exactly once after each reliable message is delivered: appends the
    /// three-byte encoding of `id` to that peer's buffer (created fresh for
    /// a peer not seen before) and touches the peer at `time`.
    pub fn received(&mut self, time: u64, addr: u64, id: DatagramId)
        requires
            old(self).wf(),
            id.wf(),
        ensures
            final(self).wf(),
            has_addr(final(self).peers(), addr),
            has_addr(old(self).peers(), addr) ==> ({
                let s0 = old(self).peers();
                let s1 = final(self).peers();
                let i = find_addr(s0, addr);
                &&& s1.len() == s0.len()
                &&& forall|k: int| 0 <= k < s1.len() && k != i ==> (#[trigger] s1[k]) == s0[k]
                &&& s1[i].addr == addr
                &&& s1[i].last_touched == time
                &&& s1[i].state.bytes() == s0[i].state.bytes() + id_bytes(id.spec_value())
                &&& s1[i].state.oldest_time() == (if s0[i].state.bytes().len() == 0 {
                    time
                } else {
                    s0[i].state.oldest_time()
                })
            }),
            !has_addr(old(self).peers(), addr) ==> ({
                let s0 = old(self).peers();
                let s1 = final(self).peers();
                &&& s1.len() == s0.len() + 1
                &&& forall|k: int| 0 <= k < s0.len() ==> (#[trigger] s1[k]) == s0[k]
                &&& s1[s0.len() as int].addr == addr
                &&& s1[s0.len() as int].last_touched == time
                &&& s1[s0.len() as int].state.bytes() == id_bytes(id.spec_value())
                &&& s1[s0.len() as int].state.oldest_time() == time
            }),
    {
        proof {
            if has_addr(self.book@, addr) {
                let i = find_addr(self.book@, addr);
                assert(self.book@[i].state.pending_bytes() =~= self.book@[i].state.bytes());
            }
        }
        let buffer = self.book.update(time, addr);
        buffer.push(time, id);
    }

    /// Drains every buffer that is ready at `time` into confirmation
    /// datagrams, one per chunk of at most `MAX_MESSAGE_SIZE` bytes, chunks
    /// carved from the most recently pushed end first. Ready buffers end up
    /// empty, buffers that are not ready stay untouched and no last-touched
    /// time changes. The caller hands the datagrams to the outbound
    /// channel; a failure there is the caller's to handle.
    pub fn send_confirms(&mut self, time: u64) -> (out: Vec<OutDatagram>)
        requires
            old(self).wf(),
        ensures
            final(self).wf(),
            final(self).peers().len() == old(self).peers().len(),
            forall|k: int|
                0 <= k < old(self).peers().len() ==> {
                    let e0 = #[trigger] old(self).peers()[k];
                    let e1 = final(self).peers()[k];
                    &&& e1.addr == e0.addr
                    &&& e1.last_touched == e0.last_touched
                    &&& e1.state.oldest_time() == e0.state.oldest_time()
                    &&& (e0.state.is_ready(time) ==> e1.state.bytes().len() == 0 && addr_data(
                        out@,
                        e0.addr,
                    ) == drain_chunks(e0.state.bytes(), MAX_MESSAGE_SIZE as int) && undrained(
                        addr_data(out@, e0.addr),
                    ) == e0.state.bytes())
                    &&& (!e0.state.is_ready(time) ==> e1 == e0 && addr_data(out@, e0.addr).len()
                        == 0)
                },
            forall|i: int|
                0 <= i < out@.len() ==> {
                    let d = #[trigger] out@[i];
                    &&& d.header == DatagramHeader::Confirmation
                    &&& 0 < d.data@.len() <= MAX_MESSAGE_SIZE
                    &&& d.data@.len() % 3 == 0
                    &&& has_addr(old(self).peers(), d.addr)
                },
    {
        let ghost s_start = self.book@;
        let mut out: Vec<OutDatagram> = Vec::new();
        let n = self.book.len();
        let mut c: usize = 0;
        while c < n
            invariant
                old(self).wf(),
                s_start == old(self).book@,
                self.book.wf(),
                n == s_start.len(),
                self.book@.len() == n,
                c <= n,
                self.book.sweep_pos() == c,
                forall|k: int| 0 <= k < n ==> (#[trigger] self.book@[k]).addr == s_start[k].addr,
                forall|k: int| c <= k < n ==> (#[trigger] self.book@[k]) == s_start[k],
                forall|k: int|
                    0 <= k < c ==> {
                        let e0 = #[trigger] s_start[k];
                        let e1 = self.book@[k];
                        &&& e1.last_touched == e0.last_touched
                        &&& e1.state.oldest_time() == e0.state.oldest_time()
                        &&& settled(e1.state)
                        &&& (e0.state.is_ready(time) ==> e1.state.bytes().len() == 0 && addr_data(
                            out@,
                            e0.addr,
                        ) == drain_chunks(e0.state.bytes(), MAX_MESSAGE_SIZE as int))
                        &&& (!e0.state.is_ready(time) ==> e1 == e0 && addr_data(
                            out@,
                            e0.addr,
                        ).len() == 0)
                    },
                forall|k: int|
                    c <= k < n ==> addr_data(out@, (#[trigger] s_start[k]).addr).len() == 0,
                forall|i: int|
                    0 <= i < out@.len() ==> {
                        let d = #[trigger] out@[i];
                        &&& d.header == DatagramHeader::Confirmation
                        &&& 0 < d.data@.len() <= MAX_MESSAGE_SIZE
                        &&& d.data@.len() % 3 == 0
                        &&& has_addr(s_start, d.addr)
                    },
            decreases n - c,
        {
            let ghost k = c as int;
            let addr_opt = self.book.next();
            let addr = match addr_opt {
                Some(a) => a,
                None => {
                    proof {
                        assert(false);
                    }
                    0
                },
            };
            proof {
                assert(addr == s_start[k].addr);
            }
            let is_rdy = match self.book.get(addr) {
                Some(b) => {
                    proof {
                        let f = find_addr(self.book@, addr);
                        assert(0 <= f < self.book@.len() && self.book@[f].addr == addr);
                        assert(f == k);
                    }
                    b.ready(time)
                },
                None => {
                    proof {
                        assert(has_addr(self.book@, addr));
                        assert(false);
                    }
                    false
                },
            };
            proof {
                assert(is_rdy == s_start[k].state.is_ready(time));
            }
            if is_rdy {
                let ghost book_snap = self.book@;
                let ghost base_out = out@;
                let ghost p0 = self.book@[k].state.bytes();
                let ghost oldest0 = self.book@[k].state.oldest_time();
                proof {
                    assert(settled(s_start[k].state));
                    assert(p0 == s_start[k].state.bytes());
                    assert(self.book@[k].state.pending_bytes() =~= p0);
                }
                let ghost mut cur = p0;
                let mut more = true;
                while more
                    invariant
                        old(self).wf(),
                        self.book.wf(),
                        self.book@.len() == n,
                        0 <= k < n,
                        n == s_start.len(),
                        self.book.sweep_pos() == k + 1,
                        s_start[k].addr == addr,
                        book_snap.len() == n,
                        forall|k2: int|
                            0 <= k2 < n && k2 != k ==> (#[trigger] self.book@[k2]) == book_snap[k2],
                        forall|k2: int|
                            0 <= k2 < n ==> (#[trigger] book_snap[k2]).addr == s_start[k2].addr,
                        forall|k2: int, j2: int|
                            0 <= k2 < j2 < n ==> (#[trigger] s_start[k2]).addr != (
                            #[trigger] s_start[j2]).addr,
                        forall|a: u64| a != addr ==> addr_data(out@, a) == addr_data(base_out, a),
                        self.book@[k].addr == addr,
                        self.book@[k].last_touched == book_snap[k].last_touched,
                        self.book@[k].state.wf(),
                        self.book@[k].state.oldest_time() == oldest0,
                        self.book@[k].state.pending_bytes() == cur,
                        drain_chunks(p0, MAX_MESSAGE_SIZE as int) == addr_data(out@, addr)
                            + drain_chunks(cur, MAX_MESSAGE_SIZE as int),
                        cur.len() % 3 == 0,
                        !more ==> cur.len() == 0 && self.book@[k].state.bytes().len() == 0
                            && self.book@[k].state.flushed_to() == 0,
                        forall|i: int|
                            0 <= i < out@.len() ==> {
                                let d = #[trigger] out@[i];
                                &&& d.header == DatagramHeader::Confirmation
                                &&& 0 < d.data@.len() <= MAX_MESSAGE_SIZE
                                &&& d.data@.len() % 3 == 0
                                &&& has_addr(s_start, d.addr)
                            },
                    decreases cur.len() + (if more {
                        1int
                    } else {
                        0int
                    }),
                {
                    let ghost out_before = out@;
                    proof {
                        assert(has_addr(self.book@, addr));
                        let f = find_addr(self.book@, addr);
                        assert(0 <= f < self.book@.len() && self.book@[f].addr == addr);
                        assert(f == k);
                    }
                    let buffer = self.book.state_mut(addr);
                    match buffer.flush(MAX_MESSAGE_SIZE) {
                        None => {
                            more = false;
                        },
                        Some(data) => {
                            proof {
                                assert(cur.len() > 0);
                            }
                            out.push(OutDatagram::new(DatagramHeader::Confirmation, data, addr));
                            proof {
                                let size = min(
                                    cur.len() as int,
                                    align_down4(MAX_MESSAGE_SIZE as int),
                                );
                                let cur2 = cur.take(cur.len() - size);
                                assert(out@.drop_last() =~= out_before);
                                assert(addr_data(out@, addr) =~= addr_data(
                                    out_before,
                                    addr,
                                ).push(data@));
                                assert forall|a: u64| a != addr implies addr_data(out@, a)
                                    == addr_data(out_before, a) by {
                                    assert(out@.drop_last() =~= out_before);
                                }
                                assert(drain_chunks(cur, MAX_MESSAGE_SIZE as int) =~= seq![data@]
                                    + drain_chunks(cur2, MAX_MESSAGE_SIZE as int));
                                assert((addr_data(out_before, addr).push(data@)) + drain_chunks(
                                    cur2,
                                    MAX_MESSAGE_SIZE as int,
                                ) =~= addr_data(out_before, addr) + (seq![data@] + drain_chunks(
                                    cur2,
                                    MAX_MESSAGE_SIZE as int,
                                )));
                                cur = cur2;
                            }
                        },
                    }
                }
                proof {
                    assert(drain_chunks(cur, MAX_MESSAGE_SIZE as int) =~= Seq::<Seq<u8>>::empty());
                    assert(addr_data(out@, addr) + Seq::<Seq<u8>>::empty() =~= addr_data(
                        out@,
                        addr,
                    ));
                    assert(addr_data(out@, addr) == drain_chunks(p0, MAX_MESSAGE_SIZE as int));
                }
            }
            c = c + 1;
        }
        match self.book.next() {
            None => {},
            Some(a) => {
                proof {
                    assert(false);
                }
            },
        }
        proof {
            assert forall|k: int|
                0 <= k < s_start.len() && s_start[k].state.is_ready(
                    time,
                ) implies undrained(addr_data(out@, s_start[k].addr)) == s_start[k].state.bytes() by {
                assert(settled(s_start[k].state));
                lemma_drain_reconstructs(s_start[k].state.bytes(), MAX_MESSAGE_SIZE as int);
            }
        }
        out
    }

    /// Drops every idle peer whose last touch lies beyond the staleness
    /// window; peers whose buffers still hold ids stay regardless of age.
    pub fn clean(&mut self, time: u64)
        requires
            old(self).wf(),
        ensures
            final(self).wf(),
            final(self).peers() == swept(old(self).peers(), time),
    {
        self.book.clean(time);
        proof {
            crate::book::lemma_swept_props(old(self).book@, time);
            assert forall|i: int| 0 <= i < self.book@.len() implies settled(
                (#[trigger] self.book@[i]).state,
            ) by {
                let k = choose|k: int|
                    0 <= k < old(self).book@.len() && old(self).book@[k] == self.book@[i];
                assert(settled(old(self).book@[k].state));
            }
        }
    }
}

/// The sequence of chunks a full drain with cap `cap` carves out of pending
/// bytes `p`, in drain order: each chunk is taken from the tail of what
/// remains.
pub open spec fn drain_chunks(p: Seq<u8>, cap: int) -> Seq<Seq<u8>>
    decreases p.len(),
    when align_down4(cap) > 0
{
    if p.len() == 0 {
        Seq::empty()
    } else {
        let size = min(p.len() as int, align_down4(cap));
        seq![p.skip(p.len() - size)] + drain_chunks(p.take(p.len() - size), cap)
    }
}

/// Concatenation of drained chunks in the order the bytes originally stood:
/// the most recently drained chunk comes first in drain order, so it is
/// appended last here.
pub open spec fn undrained(chunks: Seq<Seq<u8>>) -> Seq<u8>
    decreases chunks.len(),
{
    if chunks.len() == 0 {
        Seq::empty()
    } else {
        undrained(chunks.skip(1)) + chunks[0]
    }
}

/// Draining loses and duplicates nothing: the chunks of a full drain
/// partition the pending bytes, and stitching them back together (most
/// recently drained first) reproduces the pushed byte sequence exactly.
pub proof fn lemma_drain_reconstructs(p: Seq<u8>, cap: int)
    requires
        align_down4(cap) > 0,
    ensures
        undrained(drain_chunks(p, cap)) == p,
    decreases p.len(),
{
    if p.len() == 0 {
        assert(undrained(drain_chunks(p, cap)) =~= p);
    } else {
        let size = min(p.len() as int, align_down4(cap));
        let rest = p.take(p.len() - size);
        let chunk = p.skip(p.len() - size);
        lemma_drain_reconstructs(rest, cap);
        assert((seq![chunk] + drain_chunks(rest, cap)).skip(1) =~= drain_chunks(rest, cap));
        assert(undrained(drain_chunks(p, cap)) == rest + chunk);
        assert(rest + chunk =~= p);
    }
}

/// Every chunk of a full drain is non-empty and no longer than the cap,
/// provided the cap admits at least one aligned byte group.
pub proof fn lemma_drain_chunks_bounded(p: Seq<u8>, cap: int)
    requires
        cap >= 4,
    ensures
        forall|i: int|
            0 <= i < drain_chunks(p, cap).len() ==> 0 < (#[trigger] drain_chunks(p, cap)[i]).len()
                <= cap,
    decreases p.len(),
{
    if p.len() > 0 {
        let size = min(p.len() as int, align_down4(cap));
        let rest = p.take(p.len() - size);
        lemma_drain_chunks_bounded(rest, cap);
        assert((seq![p.skip(p.len() - size)] + drain_chunks(rest, cap)).skip(1) =~= drain_chunks(
            rest,
            cap,
        ));
        assert forall|i: int| 0 <= i < drain_chunks(p, cap).len() implies 0 < (
        #[trigger] drain_chunks(p, cap)[i]).len() <= cap by {
            if i > 0 {
                assert(drain_chunks(p, cap)[i] == drain_chunks(rest, cap)[i - 1]);
            }
        }
    }
}

/// Every chunk of a full drain is an exact run of three-byte id encodings,
/// as long as the aligned cap is itself a multiple of three or the whole
/// buffer fits into one chunk. (With other caps the four-byte alignment of
/// the chunk cap can split an id across two chunks.)
pub proof fn lemma_drain_chunks_id_aligned(p: Seq<u8>, cap: int)
    requires
        cap >= 4,
        p.len() % 3 == 0,
        align_down4(cap) % 3 == 0 || p.len() <= align_down4(cap),
    ensures
        forall|i: int|
            0 <= i < drain_chunks(p, cap).len() ==> (#[trigger] drain_chunks(p, cap)[i]).len() % 3
                == 0,
    decreases p.len(),
{
    if p.len() > 0 {
        let size = min(p.len() as int, align_down4(cap));
        let rest = p.take(p.len() - size);
        assert(size % 3 == 0);
        assert(rest.len() % 3 == 0);
        lemma_drain_chunks_id_aligned(rest, cap);
        assert((seq![p.skip(p.len() - size)] + drain_chunks(rest, cap)).skip(1) =~= drain_chunks(
            rest,
            cap,
        ));
        assert forall|i: int| 0 <= i < drain_chunks(p, cap).len() implies (
        #[trigger] drain_chunks(p, cap)[i]).len() % 3 == 0 by {
            if i > 0 {
                assert(drain_chunks(p, cap)[i] == drain_chunks(rest, cap)[i - 1]);
            }
        }
    }
}

} // verus!

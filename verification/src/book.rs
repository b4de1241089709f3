//! Connection Book: a generic per-peer state store. State is created on
//! first reference, iterated fairly in a round-robin sweep and swept for
//! staleness, so that every reliability concern shares one per-peer
//! lifecycle.

use vstd::prelude::*;

verus! {

/// An idle entry is dropped by `clean` once it has not been touched for
/// this many milliseconds; an entry with pending work is never dropped.
pub const MAX_CONN_AGE: u64 = 600000;

/// Capability required of any per-peer state object managed by a
/// `ConnectionBook`: it reports whether it still has pending work, and it
/// can be freshly created for a peer seen for the first time.
pub trait Connection: Sized {
    /// Internal invariant of the state object.
    spec fn inv(&self) -> bool;

    /// Whether the state still has outstanding work, at the specification
    /// level.
    spec fn spec_pending(&self) -> bool;

    /// Whether the state still has outstanding work. An entry with pending
    /// work is never removed from the book.
    fn pending(&self) -> (r: bool)
        requires
            self.inv(),
        ensures
            r == self.spec_pending(),
    ;

    /// A fresh state object for a peer seen for the first time.
    fn fresh() -> (s: Self)
        ensures
            s.inv(),
            !s.spec_pending(),
    ;
}

/// One per-peer record: the peer address, the time of the last mutating
/// access and the protocol state object.
pub struct Entry<S> {
    pub addr: u64,
    pub last_touched: u64,
    pub state: S,
}

/// True when some entry of `s` carries the address.
pub open spec fn has_addr<S>(s: Seq<Entry<S>>, addr: u64) -> bool {
    exists|i: int| 0 <= i < s.len() && s[i].addr == addr
}

/// The index of the entry carrying the address (the book keeps addresses
/// unique, so there is at most one).
pub open spec fn find_addr<S>(s: Seq<Entry<S>>, addr: u64) -> int {
    choose|i: int| 0 <= i < s.len() && s[i].addr == addr
}

/// Whether `clean` at time `now` keeps an entry: it still has pending work
/// or was touched within the staleness window.
pub open spec fn keeps<S: Connection>(e: Entry<S>, now: u64) -> bool {
    e.state.spec_pending() || now <= e.last_touched + MAX_CONN_AGE
}

/// The entries surviving a staleness sweep at time `now`, in their original
/// order.
pub open spec fn swept<S: Connection>(s: Seq<Entry<S>>, now: u64) -> Seq<Entry<S>>
    decreases s.len(),
{
    if s.len() == 0 {
        Seq::empty()
    } else {
        let rest = swept(s.drop_last(), now);
        if keeps(s.last(), now) {
            rest.push(s.last())
        } else {
            rest
        }
    }
}

/// Per-peer state registry with create-on-demand lookup, fair round-robin
/// iteration and a staleness sweep. Addresses are unique across entries.
pub struct ConnectionBook<S: Connection> {
    entries: Vec<Entry<S>>,
    cursor: usize,
}

impl<S: Connection> View for ConnectionBook<S> {
    type V = Seq<Entry<S>>;

    closed spec fn view(&self) -> Seq<Entry<S>> {
        self.entries@
    }
}

impl<S: Connection> ConnectionBook<S> {
    /// Position of the round-robin sweep: the index of the entry `next`
    /// returns next.
    pub closed spec fn sweep_pos(&self) -> int {
        self.cursor as int
    }

    /// Well-formedness: every state object holds its invariant, addresses
    /// are unique and the sweep position lies within the book.
    pub open spec fn wf(&self) -> bool {
        &&& forall|i: int| 0 <= i < self@.len() ==> (#[trigger] self@[i]).state.inv()
        &&& forall|i: int, j: int|
            0 <= i < j < self@.len() ==> (#[trigger] self@[i]).addr != (#[trigger] self@[j]).addr
        &&& 0 <= self.sweep_pos() <= self@.len()
    }

    /// An empty book.
    pub fn new() -> (r: ConnectionBook<S>)
        ensures
            r.wf(),
            r@.len() == 0,
            r.sweep_pos() == 0,
    {
        ConnectionBook { entries: Vec::new(), cursor: 0 }
    }

    /// Number of entries in the book.
    pub fn len(&self) -> (r: usize)
        ensures
            r == self@.len(),
    {
        self.entries.len()
    }

    /// Whether the book holds an entry for the address.
    pub fn contains(&self, addr: u64) -> (r: bool)
        ensures
            r == has_addr(self@, addr),
    {
        let n = self.entries.len();
        let mut i: usize = 0;
        while i < n
            invariant
                i <= n,
                n == self@.len(),
                forall|j: int| 0 <= j < i ==> (#[trigger] self@[j]).addr != addr,
            decreases n - i,
        {
            if self.entries[i].addr == addr {
                return true;
            }
            i = i + 1;
        }
        false
    }

    /// Returns the state for `addr`, creating a fresh one if the peer is
    /// unknown, and records `now` as the time of this access.
    pub fn update(&mut self, now: u64, addr: u64) -> (state: &mut S)
        requires
            old(self).wf(),
        ensures
            old(self).wf() && has_addr(old(self)@, addr) ==> {
                let i = find_addr(old(self)@, addr);
                &&& *state == old(self)@[i].state
                &&& final(self)@ == old(self)@.update(
                    i,
                    Entry { addr, last_touched: now, state: *final(state) },
                )
            },
            !has_addr(old(self)@, addr) ==> (*state).inv() && !(*state).spec_pending()
                && final(self)@ == old(self)@.push(
                Entry { addr, last_touched: now, state: *final(state) },
            ),
            final(self).sweep_pos() == old(self).sweep_pos(),
            (*final(state)).inv() ==> final(self).wf(),
            has_addr(final(self)@, addr),
    {
        let n = self.entries.len();
        let mut i: usize = 0;
        let mut idx: usize = n;
        while i < n
            invariant
                i <= n,
                idx <= n,
                n == self@.len(),
                self == old(self),
                idx == n ==> forall|j: int| 0 <= j < i ==> (#[trigger] self@[j]).addr != addr,
                idx < n ==> self@[idx as int].addr == addr,
            decreases n - i,
        {
            if idx == n && self.entries[i].addr == addr {
                idx = i;
            }
            i = i + 1;
        }
        if idx < n {
            proof {
                assert(has_addr(old(self)@, addr));
                let k = find_addr(old(self)@, addr);
                assert(0 <= k < old(self)@.len() && old(self)@[k].addr == addr);
                assert(k == idx as int);
            }
            let e = &mut self.entries[idx];
            e.last_touched = now;
            &mut e.state
        } else {
            proof {
                assert forall|j: int| 0 <= j < old(self)@.len() implies (
                #[trigger] old(self)@[j]).addr != addr by {
                    assert(self@[j].addr != addr);
                }
                assert(!has_addr(old(self)@, addr));
            }
            let s = S::fresh();
            self.entries.push(Entry { addr, last_touched: now, state: s });
            let k = self.entries.len() - 1;
            let e = &mut self.entries[k];
            &mut e.state
        }
    }

    /// Returns the state for a known peer without refreshing its
    /// last-touched time.
    pub fn state_mut(&mut self, addr: u64) -> (state: &mut S)
        requires
            old(self).wf(),
            has_addr(old(self)@, addr),
        ensures
            ({
                let i = find_addr(old(self)@, addr);
                &&& *state == old(self)@[i].state
                &&& final(self)@ == old(self)@.update(
                    i,
                    Entry {
                        addr,
                        last_touched: old(self)@[i].last_touched,
                        state: *final(state),
                    },
                )
            }),
            final(self).sweep_pos() == old(self).sweep_pos(),
            (*final(state)).inv() ==> final(self).wf(),
    {
        let n = self.entries.len();
        let mut i: usize = 0;
        let mut idx: usize = n;
        while i < n
            invariant
                i <= n,
                idx <= n,
                n == self@.len(),
                self == old(self),
                idx == n ==> forall|j: int| 0 <= j < i ==> (#[trigger] self@[j]).addr != addr,
                idx < n ==> self@[idx as int].addr == addr,
            decreases n - i,
        {
            if idx == n && self.entries[i].addr == addr {
                idx = i;
            }
            i = i + 1;
        }
        proof {
            let k = find_addr(old(self)@, addr);
            assert(0 <= k < old(self)@.len() && old(self)@[k].addr == addr);
            if idx == n {
                assert(self@[k].addr != addr);
            }
            assert(idx < n);
            assert(k == idx as int);
        }
        let e = &mut self.entries[idx];
        &mut e.state
    }

    /// Read-only access to the state of a peer, if the peer is known.
    pub fn get(&self, addr: u64) -> (r: Option<&S>)
        requires
            self.wf(),
        ensures
            r is Some <==> has_addr(self@, addr),
            r is Some ==> *r->Some_0 == self@[find_addr(self@, addr)].state,
    {
        let n = self.entries.len();
        let mut i: usize = 0;
        while i < n
            invariant
                i <= n,
                n == self@.len(),
                self.wf(),
                forall|j: int| 0 <= j < i ==> (#[trigger] self@[j]).addr != addr,
            decreases n - i,
        {
            if self.entries[i].addr == addr {
                proof {
                    assert(has_addr(self@, addr));
                    let k = find_addr(self@, addr);
                    assert(0 <= k < self@.len() && self@[k].addr == addr);
                    assert(k == i as int);
                }
                return Some(&self.entries[i].state);
            }
            i = i + 1;
        }
        proof {
            assert(!has_addr(self@, addr));
        }
        None
    }

    /// One step of the round-robin sweep: the address of the next entry, or
    /// `None` once a full sweep has visited every entry exactly once, after
    /// which the sweep restarts from the first entry.
    pub fn next(&mut self) -> (r: Option<u64>)
        requires
            old(self).wf(),
        ensures
            final(self)@ == old(self)@,
            final(self).wf(),
            old(self).sweep_pos() >= old(self)@.len() ==> r is None && final(self).sweep_pos()
                == 0,
            old(self).sweep_pos() < old(self)@.len() ==> r == Some(
                old(self)@[old(self).sweep_pos()].addr,
            ) && final(self).sweep_pos() == old(self).sweep_pos() + 1,
            r is Some ==> has_addr(final(self)@, r->Some_0),
    {
        if self.cursor >= self.entries.len() {
            self.cursor = 0;
            None
        } else {
            let addr = self.entries[self.cursor].addr;
            proof {
                assert(self@[self.cursor as int].addr == addr);
            }
            self.cursor = self.cursor + 1;
            Some(addr)
        }
    }

    /// Removes every entry that has no pending work and was last touched
    /// more than the staleness window ago; entries with pending work stay
    /// regardless of age. The sweep restarts from the first entry.
    pub fn clean(&mut self, now: u64)
        requires
            old(self).wf(),
        ensures
            final(self).wf(),
            final(self)@ == swept(old(self)@, now),
            final(self).sweep_pos() == 0,
    {
        let ghost s0 = self.entries@;
        let mut rev: Vec<Entry<S>> = Vec::new();
        while self.entries.len() > 0
            invariant
                forall|i: int| 0 <= i < self@.len() ==> (#[trigger] self@[i]).state.inv(),
                swept(s0, now) == swept(self@, now) + rev@.reverse(),
            decreases self@.len(),
        {
            let ghost before = self@;
            let ghost rev_before = rev@;
            let popped = self.entries.pop();
            match popped {
                None => {},
                Some(e) => {
                    proof {
                        assert(before.drop_last() == self@);
                        assert(before.last() == e);
                    }
                    if e.state.pending() || (now >= e.last_touched && now - e.last_touched
                        <= MAX_CONN_AGE) || now < e.last_touched {
                        proof {
                            assert(keeps(e, now));
                        }
                        rev.push(e);
                        proof {
                            assert(rev@.reverse() =~= seq![e] + rev_before.reverse());
                            assert(swept(before, now) == swept(self@, now).push(e));
                            assert(swept(self@, now).push(e) + rev_before.reverse() =~= swept(
                                self@,
                                now,
                            ) + rev@.reverse());
                        }
                    } else {
                        proof {
                            assert(!keeps(e, now));
                            assert(swept(before, now) == swept(self@, now));
                        }
                    }
                },
            }
        }
        proof {
            assert(swept(s0, now) =~= rev@.reverse());
        }
        let mut out: Vec<Entry<S>> = Vec::new();
        while rev.len() > 0
            invariant
                out@ + rev@.reverse() == swept(s0, now),
            decreases rev@.len(),
        {
            let ghost out_before = out@;
            let ghost rev_before = rev@;
            let popped = rev.pop();
            match popped {
                None => {},
                Some(e) => {
                    out.push(e);
                    proof {
                        assert(rev_before.drop_last() == rev@);
                        assert(rev_before.reverse() =~= rev@.reverse().insert(0, e));
                        assert(out@ + rev@.reverse() =~= out_before + rev_before.reverse());
                    }
                },
            }
        }
        proof {
            assert(rev@.reverse() =~= Seq::<Entry<S>>::empty());
            assert(out@ =~= swept(s0, now));
            lemma_swept_props(s0, now);
        }
        self.entries = out;
        self.cursor = 0;
    }
}

/// A staleness sweep keeps the book well formed: the surviving entries are
/// entries of the original book, their invariants hold and their addresses
/// stay unique.
pub proof fn lemma_swept_props<S: Connection>(s: Seq<Entry<S>>, now: u64)
    requires
        forall|i: int| 0 <= i < s.len() ==> (#[trigger] s[i]).state.inv(),
        forall|i: int, j: int|
            0 <= i < j < s.len() ==> (#[trigger] s[i]).addr != (#[trigger] s[j]).addr,
    ensures
        forall|i: int|
            0 <= i < swept(s, now).len() ==> (#[trigger] swept(s, now)[i]).state.inv(),
        forall|i: int, j: int|
            0 <= i < j < swept(s, now).len() ==> (#[trigger] swept(s, now)[i]).addr != (
            #[trigger] swept(s, now)[j]).addr,
        forall|i: int|
            0 <= i < swept(s, now).len() ==> exists|k: int|
                0 <= k < s.len() && s[k] == (#[trigger] swept(s, now)[i]) && keeps(s[k], now),
    decreases s.len(),
{
    if s.len() > 0 {
        let prefix = s.drop_last();
        lemma_swept_props(prefix, now);
        let rest = swept(prefix, now);
        assert forall|i: int| 0 <= i < swept(s, now).len() implies exists|k: int|
            0 <= k < s.len() && s[k] == (#[trigger] swept(s, now)[i]) && keeps(s[k], now) by {
            if i < rest.len() {
                let k = choose|k: int|
                    0 <= k < prefix.len() && prefix[k] == rest[i] && keeps(prefix[k], now);
                assert(s[k] == swept(s, now)[i] && keeps(s[k], now));
            } else {
                assert(swept(s, now)[i] == s.last());
                assert(s[s.len() - 1] == swept(s, now)[i] && keeps(s[s.len() - 1], now));
            }
        }
        if keeps(s.last(), now) {
            assert forall|i: int, j: int|
                0 <= i < j < swept(s, now).len() implies (#[trigger] swept(s, now)[i]).addr != (
            #[trigger] swept(s, now)[j]).addr by {
                if j == swept(s, now).len() - 1 {
                    let k = choose|k: int|
                        0 <= k < prefix.len() && prefix[k] == rest[i] && keeps(prefix[k], now);
                    assert(s[k].addr != s[s.len() - 1].addr);
                }
            }
        }
    }
}

/// An entry that still ought to stay — pending work or a recent touch —
/// survives a staleness sweep.
pub proof fn lemma_swept_contains_kept<S: Connection>(s: Seq<Entry<S>>, now: u64, i: int)
    requires
        0 <= i < s.len(),
        keeps(s[i], now),
    ensures
        swept(s, now).contains(s[i]),
    decreases s.len(),
{
    if i == s.len() - 1 {
        let w = swept(s, now);
        assert(w[w.len() - 1] == s[i]);
    } else {
        let prefix = s.drop_last();
        assert(prefix[i] == s[i]);
        lemma_swept_contains_kept(prefix, now, i);
        let j = choose|j: int| 0 <= j < swept(prefix, now).len() && swept(prefix, now)[j] == s[i];
        if keeps(s.last(), now) {
            assert(swept(s, now)[j] == s[i]);
        } else {
            assert(swept(s, now)[j] == s[i]);
        }
    }
}

/// A staleness sweep removes an entry exactly when it has no pending work
/// and its last touch lies beyond the staleness window — never while work
/// is outstanding, however old the entry is.
pub proof fn lemma_swept_membership<S: Connection>(s: Seq<Entry<S>>, now: u64, i: int)
    requires
        forall|k: int, j: int|
            0 <= k < j < s.len() ==> (#[trigger] s[k]).addr != (#[trigger] s[j]).addr,
        forall|k: int| 0 <= k < s.len() ==> (#[trigger] s[k]).state.inv(),
        0 <= i < s.len(),
    ensures
        swept(s, now).contains(s[i]) <==> keeps(s[i], now),
        s[i].state.spec_pending() ==> swept(s, now).contains(s[i]),
{
    if keeps(s[i], now) {
        lemma_swept_contains_kept(s, now, i);
    } else {
        lemma_swept_props(s, now);
        if swept(s, now).contains(s[i]) {
            let j = choose|j: int| 0 <= j < swept(s, now).len() && swept(s, now)[j] == s[i];
            let k = choose|k: int|
                0 <= k < s.len() && s[k] == swept(s, now)[j] && keeps(s[k], now);
            if k != i {
                assert(s[k].addr == s[i].addr);
                if k < i {
                    assert(s[k].addr != s[i].addr);
                } else {
                    assert(s[i].addr != s[k].addr);
                }
            }
            assert(false);
        }
    }
}

} // verus!

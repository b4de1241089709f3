//! Message fragmentation: splits an application message too large for one
//! datagram into self-describing fragments and reassembles them on receipt,
//! whatever order the fragments arrive in.

use vstd::prelude::*;
use vstd::math::min;

use crate::book::Connection;
use crate::header::{id_bytes, id_of_bytes, DatagramId};
use crate::messages::MAX_MESSAGE_SIZE;

verus! {

/// Bytes taken inside a data payload by fragment metadata: the message id,
/// the fragment index and the fragment count.
pub const FRAGMENT_OVERHEAD: usize = 7;

/// Maximum number of payload bytes carried by one fragment.
pub const MAX_FRAGMENT_DATA: usize = MAX_MESSAGE_SIZE - FRAGMENT_OVERHEAD;

/// Largest fragment count expressible in the fragment metadata.
pub const MAX_FRAGMENT_COUNT: usize = 65535;

/// One piece of an application message, self-describing so that reassembly
/// does not depend on arrival order: the message identity, the position of
/// this piece, the total number of pieces and the bytes themselves.
pub struct Fragment {
    pub message: DatagramId,
    pub index: u16,
    pub total: u16,
    pub data: Vec<u8>,
}

/// Number of fragments a payload of `len` bytes splits into: an empty
/// message still travels as one (empty) fragment.
pub open spec fn fragment_count(len: int) -> int {
    if len == 0 {
        1
    } else {
        (len + MAX_FRAGMENT_DATA - 1) / (MAX_FRAGMENT_DATA as int)
    }
}

/// The bytes of fragment `i` of a payload.
pub open spec fn frag_data(payload: Seq<u8>, i: int) -> Seq<u8> {
    payload.subrange(
        i * MAX_FRAGMENT_DATA,
        min(payload.len() as int, (i + 1) * MAX_FRAGMENT_DATA),
    )
}

/// Errors raised while splitting or reassembling messages.
#[derive(Clone, Copy, PartialEq, Eq, Structural, Debug)]
pub enum FragmentError {
    /// The payload would need more fragments than the metadata can count.
    TooLarge,
    /// A fragment's index and count are inconsistent.
    BadFragment,
    /// A fragment's count disagrees with the other fragments of the same
    /// message.
    TotalMismatch,
    /// A data payload too short to hold the fragment metadata.
    Truncated,
}

/// Splits a payload into fragments of at most `MAX_FRAGMENT_DATA` bytes,
/// each carrying the message identity and its position. Fails only when
/// the payload needs more fragments than the metadata can count.
pub fn fragment(message: DatagramId, payload: &Vec<u8>) -> (r: Result<Vec<Fragment>, FragmentError>)
    requires
        message.wf(),
    ensures
        r is Ok <==> fragment_count(payload@.len() as int) <= MAX_FRAGMENT_COUNT,
        r is Err ==> r->Err_0 == FragmentError::TooLarge,
        r is Ok ==> ({
            let fr = r->Ok_0@;
            &&& fr.len() == fragment_count(payload@.len() as int)
            &&& forall|i: int|
                0 <= i < fr.len() ==> {
                    let f = #[trigger] fr[i];
                    &&& f.message == message
                    &&& f.index == i
                    &&& f.total == fr.len()
                    &&& f.data@ == frag_data(payload@, i)
                    &&& f.data@.len() <= MAX_FRAGMENT_DATA
                }
        }),
{
    let len = payload.len();
    let total: usize = if len == 0 {
        1
    } else {
        1 + (len - 1) / MAX_FRAGMENT_DATA
    };
    proof {
        if len > 0 {
            assert(total as int == fragment_count(len as int)) by (nonlinear_arith)
                requires
                    len > 0,
                    total as int == 1 + (len - 1) / (MAX_FRAGMENT_DATA as int),
                    MAX_FRAGMENT_DATA == 1013,
            ;
        }
    }
    if total > MAX_FRAGMENT_COUNT {
        return Err(FragmentError::TooLarge);
    }
    let mut fr: Vec<Fragment> = Vec::new();
    let mut i: usize = 0;
    while i < total
        invariant
            i <= total,
            total <= MAX_FRAGMENT_COUNT,
            total as int == fragment_count(payload@.len() as int),
            len == payload@.len(),
            (total - 1) * MAX_FRAGMENT_DATA < len || len == 0,
            total * MAX_FRAGMENT_DATA >= len,
            fr@.len() == i,
            forall|q: int|
                0 <= q < i ==> {
                    let f = #[trigger] fr@[q];
                    &&& f.message == message
                    &&& f.index == q
                    &&& f.total == total
                    &&& f.data@ == frag_data(payload@, q)
                    &&& f.data@.len() <= MAX_FRAGMENT_DATA
                },
        decreases total - i,
    {
        let start = i * MAX_FRAGMENT_DATA;
        proof {
            assert(i * MAX_FRAGMENT_DATA <= (total - 1) * MAX_FRAGMENT_DATA) by (nonlinear_arith)
                requires
                    i <= total - 1,
                    MAX_FRAGMENT_DATA == 1013,
            ;
            assert(start <= len || (len == 0 && start == 0));
        }
        let stop = if len - start < MAX_FRAGMENT_DATA {
            len
        } else {
            start + MAX_FRAGMENT_DATA
        };
        let mut data: Vec<u8> = Vec::new();
        let mut p: usize = start;
        while p < stop
            invariant
                start <= p <= stop,
                stop <= len,
                len == payload@.len(),
                data@ == payload@.subrange(start as int, p as int),
            decreases stop - p,
        {
            data.push(payload[p]);
            p = p + 1;
            proof {
                assert(data@ =~= payload@.subrange(start as int, p as int));
            }
        }
        proof {
            assert(stop as int == min(payload@.len() as int, (i + 1) * MAX_FRAGMENT_DATA));
            assert(data@ == frag_data(payload@, i as int));
        }
        fr.push(Fragment { message, index: i as u16, total: total as u16, data });
        i = i + 1;
    }
    Ok(fr)
}

/// The payload assembled from reassembly slots, in slot order: the bytes of
/// every filled slot, concatenated.
pub open spec fn assembled(parts: Seq<Option<Vec<u8>>>) -> Seq<u8>
    decreases parts.len(),
{
    if parts.len() == 0 {
        Seq::empty()
    } else {
        assembled(parts.drop_last()) + (match parts.last() {
            Some(d) => d@,
            None => Seq::empty(),
        })
    }
}

/// Big-endian two-byte encoding of a fragment counter.
pub open spec fn u16_bytes(v: u16) -> Seq<u8> {
    seq![((v / 256) % 256) as u8, (v % 256) as u8]
}

/// The counter value read back from its two-byte big-endian encoding.
pub open spec fn u16_of_bytes(b0: u8, b1: u8) -> u16 {
    ((b0 as int) * 256 + (b1 as int)) as u16
}

/// The wire form of a fragment, carried as the payload of a data datagram:
/// message id, fragment index and fragment count, then the bytes.
pub open spec fn fragment_bytes(message: u32, index: u16, total: u16, data: Seq<u8>) -> Seq<u8> {
    id_bytes(message) + u16_bytes(index) + u16_bytes(total) + data
}

/// Encodes a fragment into the payload of a data datagram.
pub fn encode_fragment(frag: &Fragment) -> (r: Vec<u8>)
    requires
        frag.message.wf(),
        frag.data@.len() <= MAX_FRAGMENT_DATA,
    ensures
        r@ == fragment_bytes(frag.message.spec_value(), frag.index, frag.total, frag.data@),
        r@.len() == frag.data@.len() + FRAGMENT_OVERHEAD,
        r@.len() <= crate::messages::MAX_MESSAGE_SIZE,
{
    let mut out = frag.message.to_bytes();
    out.push(((frag.index / 256) % 256) as u8);
    out.push((frag.index % 256) as u8);
    out.push(((frag.total / 256) % 256) as u8);
    out.push((frag.total % 256) as u8);
    proof {
        assert(out@ =~= id_bytes(frag.message.spec_value()) + u16_bytes(frag.index) + u16_bytes(
            frag.total,
        ));
    }
    let n = frag.data.len();
    let mut i: usize = 0;
    while i < n
        invariant
            i <= n,
            n == frag.data@.len(),
            out@ == id_bytes(frag.message.spec_value()) + u16_bytes(frag.index) + u16_bytes(
                frag.total,
            ) + frag.data@.take(i as int),
        decreases n - i,
    {
        out.push(frag.data[i]);
        i = i + 1;
        proof {
            assert(out@ =~= id_bytes(frag.message.spec_value()) + u16_bytes(frag.index)
                + u16_bytes(frag.total) + frag.data@.take(i as int));
        }
    }
    proof {
        assert(frag.data@.take(n as int) =~= frag.data@);
    }
    out
}

/// Decodes the payload of a data datagram back into a fragment. Only a
/// payload too short for the metadata is rejected here; index and count
/// consistency is judged by reassembly.
pub fn decode_fragment(data: &Vec<u8>) -> (r: Result<Fragment, FragmentError>)
    ensures
        r is Ok <==> data@.len() >= FRAGMENT_OVERHEAD,
        r is Err ==> r->Err_0 == FragmentError::Truncated,
        r is Ok ==> ({
            let f = r->Ok_0;
            &&& f.message == DatagramId::spec_from_value(id_of_bytes(data@[0], data@[1], data@[2]))
            &&& f.message.wf()
            &&& f.index == u16_of_bytes(data@[3], data@[4])
            &&& f.total == u16_of_bytes(data@[5], data@[6])
            &&& f.data@ == data@.skip(FRAGMENT_OVERHEAD as int)
        }),
{
    if data.len() < FRAGMENT_OVERHEAD {
        return Err(FragmentError::Truncated);
    }
    let message = DatagramId::from_bytes(data[0], data[1], data[2]);
    let index = (data[3] as u16) * 256 + (data[4] as u16);
    let total = (data[5] as u16) * 256 + (data[6] as u16);
    let mut rest: Vec<u8> = Vec::new();
    let mut i: usize = FRAGMENT_OVERHEAD;
    while i < data.len()
        invariant
            FRAGMENT_OVERHEAD <= i <= data@.len(),
            rest@ == data@.subrange(FRAGMENT_OVERHEAD as int, i as int),
        decreases data@.len() - i,
    {
        rest.push(data[i]);
        i = i + 1;
        proof {
            assert(rest@ =~= data@.subrange(FRAGMENT_OVERHEAD as int, i as int));
        }
    }
    proof {
        assert(id_of_bytes(data@[0], data@[1], data@[2]) < crate::header::ID_LIMIT);
        assert(rest@ =~= data@.skip(FRAGMENT_OVERHEAD as int));
    }
    Ok(Fragment { message, index, total, data: rest })
}

/// Decoding the encoding of any fragment gives every field back: the
/// fragment wire form loses nothing.
pub proof fn lemma_fragment_wire_roundtrip(message: u32, index: u16, total: u16, data: Seq<u8>)
    requires
        message < crate::header::ID_LIMIT,
    ensures
        ({
            let b = fragment_bytes(message, index, total, data);
            &&& b.len() == data.len() + FRAGMENT_OVERHEAD
            &&& id_of_bytes(b[0], b[1], b[2]) == message
            &&& u16_of_bytes(b[3], b[4]) == index
            &&& u16_of_bytes(b[5], b[6]) == total
            &&& b.skip(FRAGMENT_OVERHEAD as int) == data
        }),
{
    let b = fragment_bytes(message, index, total, data);
    crate::header::lemma_id_bytes_roundtrip(message);
    assert(b[0] == id_bytes(message)[0]);
    assert(b[1] == id_bytes(message)[1]);
    assert(b[2] == id_bytes(message)[2]);
    assert(b[3] == u16_bytes(index)[0]);
    assert(b[4] == u16_bytes(index)[1]);
    assert(b[5] == u16_bytes(total)[0]);
    assert(b[6] == u16_bytes(total)[1]);
    assert((((index / 256) % 256) as u8) as int * 256 + ((index % 256) as u8) as int
        == index as int) by (bit_vector);
    assert((((total / 256) % 256) as u8) as int * 256 + ((total % 256) as u8) as int
        == total as int) by (bit_vector);
    assert(b.skip(FRAGMENT_OVERHEAD as int) =~= data);
}

/// Reassembly state for one message: one slot per expected fragment,
/// filled as fragments arrive.
pub struct Partial {
    pub message: DatagramId,
    pub total: u16,
    pub parts: Vec<Option<Vec<u8>>>,
}

/// Well-formedness of one reassembly record: a valid message id, at least
/// one expected fragment and one slot per expected fragment.
pub open spec fn wf_partial(p: Partial) -> bool {
    &&& p.message.wf()
    &&& p.total >= 1
    &&& p.parts@.len() == p.total
}

/// True when every slot has been filled.
pub open spec fn all_filled(parts: Seq<Option<Vec<u8>>>) -> bool {
    forall|i: int| 0 <= i < parts.len() ==> (#[trigger] parts[i]) is Some
}

/// True when some record reassembles the message id value.
pub open spec fn has_msg(s: Seq<Partial>, msg: u32) -> bool {
    exists|i: int| 0 <= i < s.len() && s[i].message.spec_value() == msg
}

/// The index of the record reassembling the message id value (messages are
/// unique within one peer's assembly).
pub open spec fn find_msg(s: Seq<Partial>, msg: u32) -> int {
    choose|i: int| 0 <= i < s.len() && s[i].message.spec_value() == msg
}

/// Per-peer reassembly state: the partial messages whose fragments have
/// not all arrived yet. Kept in the peer's connection book entry until
/// complete or swept by staleness.
pub struct Assembly {
    partials: Vec<Partial>,
}

impl Connection for Assembly {
    open spec fn inv(&self) -> bool {
        self.wf()
    }

    open spec fn spec_pending(&self) -> bool {
        self.records().len() > 0
    }

    fn pending(&self) -> (r: bool) {
        !self.partials.is_empty()
    }

    fn fresh() -> (s: Self) {
        Assembly::new()
    }
}

impl Assembly {
    /// The partial messages held, in arrival order of their first fragment.
    pub closed spec fn records(&self) -> Seq<Partial> {
        self.partials@
    }

    /// Well-formedness: every record is well formed and message ids are
    /// unique.
    pub open spec fn wf(&self) -> bool {
        &&& forall|i: int| 0 <= i < self.records().len() ==> wf_partial(#[trigger] self.records()[i])
        &&& forall|i: int, j: int|
            0 <= i < j < self.records().len() ==> (#[trigger] self.records()[i]).message.spec_value()
                != (#[trigger] self.records()[j]).message.spec_value()
    }

    /// A state with no partial messages.
    pub fn new() -> (r: Assembly)
        ensures
            r.wf(),
            r.records().len() == 0,
    {
        Assembly { partials: Vec::new() }
    }

    /// Feeds one received fragment in. Returns the complete payload once
    /// the last missing fragment of its message arrives; `None` while
    /// fragments are still missing or when the fragment repeats one
    /// already held (duplicates are no-ops). A fragment whose index and
    /// count are inconsistent, or whose count disagrees with the other
    /// fragments of the same message, is rejected and changes nothing.
    pub fn reassemble(&mut self, frag: Fragment) -> (r: Result<Option<Vec<u8>>, FragmentError>)
        requires
            old(self).wf(),
            frag.message.wf(),
        ensures
            final(self).wf(),
            frag.total == 0 || frag.index >= frag.total ==> r == Result::<
                Option<Vec<u8>>,
                FragmentError,
            >::Err(FragmentError::BadFragment) && final(self).records() == old(self).records(),
            (frag.total > 0 && frag.index < frag.total && !has_msg(
                old(self).records(),
                frag.message.spec_value(),
            )) ==> ({
                let s0 = old(self).records();
                let s1 = final(self).records();
                if frag.total == 1 {
                    &&& r is Ok
                    &&& r->Ok_0 is Some
                    &&& r->Ok_0->0@ == frag.data@
                    &&& s1 == s0
                } else {
                    &&& r == Result::<Option<Vec<u8>>, FragmentError>::Ok(None)
                    &&& s1.len() == s0.len() + 1
                    &&& (forall|k: int| 0 <= k < s0.len() ==> (#[trigger] s1[k]) == s0[k])
                    &&& s1[s0.len() as int].message == frag.message
                    &&& s1[s0.len() as int].total == frag.total
                    &&& s1[s0.len() as int].parts@.len() == frag.total
                    &&& s1[s0.len() as int].parts@[frag.index as int] is Some
                    &&& s1[s0.len() as int].parts@[frag.index as int]->0@ == frag.data@
                    &&& (forall|q: int|
                        0 <= q < frag.total && q != frag.index ==> (#[trigger] s1[s0.len() as int].parts@[q]) is None)
                }
            }),
            (frag.total > 0 && frag.index < frag.total && has_msg(
                old(self).records(),
                frag.message.spec_value(),
            )) ==> ({
                let s0 = old(self).records();
                let s1 = final(self).records();
                let i = find_msg(s0, frag.message.spec_value());
                if s0[i].total != frag.total {
                    r == Result::<Option<Vec<u8>>, FragmentError>::Err(FragmentError::TotalMismatch)
                        && s1 == s0
                } else if s0[i].parts@[frag.index as int] is Some {
                    r == Result::<Option<Vec<u8>>, FragmentError>::Ok(None) && s1 == s0
                } else {
                    let filled = s0[i].parts@.update(frag.index as int, Some(frag.data));
                    if all_filled(filled) {
                        &&& r is Ok
                        &&& r->Ok_0 is Some
                        &&& r->Ok_0->0@ == assembled(filled)
                        &&& s1 == s0.remove(i)
                    } else {
                        &&& r == Result::<Option<Vec<u8>>, FragmentError>::Ok(None)
                        &&& s1.len() == s0.len()
                        &&& (forall|k: int| 0 <= k < s1.len() && k != i ==> (#[trigger] s1[k]) == s0[k])
                        &&& s1[i].message == s0[i].message
                        &&& s1[i].total == s0[i].total
                        &&& s1[i].parts@ == filled
                    }
                }
            }),
    {
        if frag.total == 0 || frag.index >= frag.total {
            return Err(FragmentError::BadFragment);
        }
        let n = self.partials.len();
        let mut i: usize = 0;
        let mut idx: usize = n;
        while i < n
            invariant
                i <= n,
                idx <= n,
                n == self.records().len(),
                self == old(self),
                idx == n ==> forall|j: int|
                    0 <= j < i ==> (#[trigger] self.records()[j]).message.spec_value()
                        != frag.message.spec_value(),
                idx < n ==> self.records()[idx as int].message.spec_value()
                    == frag.message.spec_value(),
            decreases n - i,
        {
            if idx == n && self.partials[i].message.to_u32() == frag.message.to_u32() {
                idx = i;
            }
            i = i + 1;
        }
        if idx == n {
            proof {
                assert forall|j: int| 0 <= j < old(self).records().len() implies (
                #[trigger] old(self).records()[j]).message.spec_value()
                    != frag.message.spec_value() by {
                    assert(self.records()[j].message.spec_value() != frag.message.spec_value());
                }
                assert(!has_msg(old(self).records(), frag.message.spec_value()));
            }
            if frag.total == 1 {
                return Ok(Some(frag.data));
            }
            let mut parts: Vec<Option<Vec<u8>>> = Vec::new();
            let total = frag.total as usize;
            let mut q: usize = 0;
            while q < total
                invariant
                    q <= total,
                    parts@.len() == q,
                    forall|t: int| 0 <= t < q ==> (#[trigger] parts@[t]) is None,
                decreases total - q,
            {
                parts.push(None);
                q = q + 1;
            }
            let fidx = frag.index as usize;
            let slot = &mut parts[fidx];
            *slot = Some(frag.data);
            self.partials.push(Partial { message: frag.message, total: frag.total, parts });
            return Ok(None);
        }
        proof {
            assert(has_msg(old(self).records(), frag.message.spec_value()));
            let f = find_msg(old(self).records(), frag.message.spec_value());
            assert(0 <= f < self.records().len() && self.records()[f].message.spec_value()
                == frag.message.spec_value());
            if f < idx as int {
                assert(old(self).records()[f].message.spec_value() != old(self).records()[
                    idx as int
                ].message.spec_value());
            } else if f > idx as int {
                assert(old(self).records()[idx as int].message.spec_value() != old(
                    self,
                ).records()[f].message.spec_value());
            }
            assert(f == idx as int);
        }
        if self.partials[idx].total != frag.total {
            return Err(FragmentError::TotalMismatch);
        }
        let fidx = frag.index as usize;
        if self.partials[idx].parts[fidx].is_some() {
            return Ok(None);
        }
        let slot = &mut self.partials[idx].parts[fidx];
        *slot = Some(frag.data);
        let ghost filled = self.partials@[idx as int].parts@;
        let total = self.partials[idx].total as usize;
        let mut complete = true;
        let mut q: usize = 0;
        while q < total
            invariant
                q <= total,
                0 <= idx < self.records().len(),
                total == self.records()[idx as int].total,
                self.records()[idx as int].parts@.len() == total,
                filled == self.records()[idx as int].parts@,
                complete <==> (forall|t: int| 0 <= t < q ==> (#[trigger] filled[t]) is Some),
            decreases total - q,
        {
            if self.partials[idx].parts[q].is_none() {
                complete = false;
            }
            q = q + 1;
        }
        if complete {
            let p = self.partials.remove(idx);
            proof {
                old(self).records().remove_ensures(idx as int);
                assert(all_filled(filled));
            }
            let mut v: Vec<u8> = Vec::new();
            let parts_n = p.parts.len();
            let mut t: usize = 0;
            while t < parts_n
                invariant
                    t <= parts_n,
                    parts_n == p.parts@.len(),
                    all_filled(p.parts@),
                    v@ == assembled(p.parts@.take(t as int)),
                decreases parts_n - t,
            {
                let ghost v_before = v@;
                match &p.parts[t] {
                    Some(d) => {
                        proof {
                            assert(d@ == p.parts@[t as int]->0@);
                        }
                        let dn = d.len();
                        let mut w: usize = 0;
                        while w < dn
                            invariant
                                w <= dn,
                                dn == d@.len(),
                                v@ == v_before + d@.subrange(0, w as int),
                            decreases dn - w,
                        {
                            v.push(d[w]);
                            w = w + 1;
                            proof {
                                assert(v@ =~= v_before + d@.subrange(0, w as int));
                            }
                        }
                        proof {
                            assert(d@.subrange(0, dn as int) =~= d@);
                            assert(v@ == v_before + p.parts@[t as int]->0@);
                        }
                    },
                    None => {
                        proof {
                            assert(false);
                        }
                    },
                }
                t = t + 1;
                proof {
                    assert(p.parts@.take(t as int).drop_last() =~= p.parts@.take(t as int - 1));
                    assert(p.parts@[t as int - 1]->0@.subrange(
                        0,
                        p.parts@[t as int - 1]->0@.len() as int,
                    ) =~= p.parts@[t as int - 1]->0@);
                    assert(v@ =~= assembled(p.parts@.take(t as int)));
                }
            }
            proof {
                assert(p.parts@.take(parts_n as int) =~= p.parts@);
            }
            return Ok(Some(v));
        }
        proof {
            assert(!all_filled(filled)) by {
                assert(!(forall|t: int| 0 <= t < total ==> (#[trigger] filled[t]) is Some));
            }
        }
        Ok(None)
    }
}

/// Fragmentation round-trip: once every slot `i` holds the bytes of
/// fragment `i` of a payload — in whatever order the fragments arrived —
/// the assembled result is byte-identical to the original payload.
pub proof fn lemma_fragment_reassemble(payload: Seq<u8>, parts: Seq<Option<Vec<u8>>>)
    requires
        parts.len() == fragment_count(payload.len() as int),
        forall|i: int|
            0 <= i < parts.len() ==> (#[trigger] parts[i]) is Some && parts[i]->0@ == frag_data(
                payload,
                i,
            ),
    ensures
        assembled(parts) == payload,
{
    lemma_assembled_prefix(payload, parts, parts.len() as int);
    assert(min(payload.len() as int, parts.len() * MAX_FRAGMENT_DATA) == payload.len()) by {
        if payload.len() > 0 {
            assert(fragment_count(payload.len() as int) * MAX_FRAGMENT_DATA >= payload.len())
                by (nonlinear_arith)
                requires
                    payload.len() > 0,
                    fragment_count(payload.len() as int) == (payload.len() + MAX_FRAGMENT_DATA - 1)
                        / (MAX_FRAGMENT_DATA as int),
                    MAX_FRAGMENT_DATA == 1013,
            ;
        }
    }
    assert(parts.take(parts.len() as int) =~= parts);
    assert(payload.subrange(0, payload.len() as int) =~= payload);
}

/// Helper: the first `j` slots assemble to the first `j` fragments' worth
/// of payload bytes.
proof fn lemma_assembled_prefix(payload: Seq<u8>, parts: Seq<Option<Vec<u8>>>, j: int)
    requires
        parts.len() == fragment_count(payload.len() as int),
        0 <= j <= parts.len(),
        forall|i: int|
            0 <= i < parts.len() ==> (#[trigger] parts[i]) is Some && parts[i]->0@ == frag_data(
                payload,
                i,
            ),
    ensures
        assembled(parts.take(j)) == payload.subrange(
            0,
            min(payload.len() as int, j * MAX_FRAGMENT_DATA),
        ),
    decreases j,
{
    if j == 0 {
        assert(assembled(parts.take(0)) =~= payload.subrange(0, 0));
    } else {
        lemma_assembled_prefix(payload, parts, j - 1);
        let pj = parts.take(j);
        assert(pj.drop_last() =~= parts.take(j - 1));
        assert(pj.last() == parts[j - 1]);
        assert((j - 1) * MAX_FRAGMENT_DATA <= j * MAX_FRAGMENT_DATA) by (nonlinear_arith);
        let a = min(payload.len() as int, (j - 1) * MAX_FRAGMENT_DATA);
        let b = min(payload.len() as int, j * MAX_FRAGMENT_DATA);
        if payload.len() == 0 {
            assert(j == 1 && a == 0 && b == 0);
            assert(frag_data(payload, 0) == payload.subrange(0, 0));
            assert(payload.subrange(0, a) + payload.subrange(a, b) =~= payload.subrange(0, b));
        } else {
            assert((j - 1) * MAX_FRAGMENT_DATA < payload.len()) by (nonlinear_arith)
                requires
                    payload.len() > 0,
                    1 <= j <= (payload.len() + MAX_FRAGMENT_DATA - 1) / (MAX_FRAGMENT_DATA as int),
                    MAX_FRAGMENT_DATA == 1013,
            ;
            assert(a == (j - 1) * MAX_FRAGMENT_DATA);
            assert(frag_data(payload, j - 1) == payload.subrange(a, b));
            assert(payload.subrange(0, a) + payload.subrange(a, b) =~= payload.subrange(0, b));
        }
    }
}

} // verus!

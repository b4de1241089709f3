//! Datagram framing: the compact sequence-number type `DatagramId` and the
//! wire header distinguishing datagram kinds.

use vstd::prelude::*;

verus! {

/// Number of bytes in the wire encoding of a `DatagramId`.
pub const ID_SIZE: usize = 3;

/// One past the largest value a `DatagramId` can hold: the id space is the
/// three-byte range.
pub const ID_LIMIT: u32 = 16777216;

/// Sequence number identifying one reliable message from one peer. Its value
/// fits into three bytes; construction from a larger integer is rejected and
/// the successor operation wraps around at the end of the range.
#[derive(Clone, Copy, PartialEq, Eq, Structural, Debug)]
pub struct DatagramId {
    value: u32,
}

/// Big-endian three-byte encoding of an id value.
pub open spec fn id_bytes(v: u32) -> Seq<u8> {
    seq![((v / 65536) % 256) as u8, ((v / 256) % 256) as u8, (v % 256) as u8]
}

/// The id value read back from its three-byte big-endian encoding.
pub open spec fn id_of_bytes(b0: u8, b1: u8, b2: u8) -> u32 {
    ((b0 as int) * 65536 + (b1 as int) * 256 + (b2 as int)) as u32
}

impl DatagramId {
    /// The numeric value of the id.
    pub closed spec fn spec_value(&self) -> u32 {
        self.value
    }

    /// The id holding a given value, at the specification level.
    pub closed spec fn spec_from_value(v: u32) -> DatagramId {
        DatagramId { value: v }
    }

    /// Well-formedness: the value fits into three bytes.
    pub open spec fn wf(&self) -> bool {
        self.spec_value() < ID_LIMIT
    }

    /// Constructs an id from an integer; values outside the three-byte range
    /// are rejected.
    pub fn try_from_u32(value: u32) -> (r: Result<DatagramId, IdRangeError>)
        ensures
            value < ID_LIMIT <==> r is Ok,
            r is Ok ==> r->Ok_0.wf() && r->Ok_0.spec_value() == value,
    {
        if value < ID_LIMIT {
            Ok(DatagramId { value })
        } else {
            Err(IdRangeError)
        }
    }

    /// The numeric value of the id.
    pub fn to_u32(&self) -> (r: u32)
        ensures
            r == self.spec_value(),
    {
        self.value
    }

    /// The id following this one, wrapping around at the end of the id space.
    pub fn wrapping_next(&self) -> (r: DatagramId)
        requires
            self.wf(),
        ensures
            r.wf(),
            self.spec_value() + 1 < ID_LIMIT ==> r.spec_value() == self.spec_value() + 1,
            self.spec_value() + 1 == ID_LIMIT ==> r.spec_value() == 0,
    {
        if self.value + 1 < ID_LIMIT {
            DatagramId { value: self.value + 1 }
        } else {
            DatagramId { value: 0 }
        }
    }

    /// The big-endian three-byte wire encoding of the id.
    pub fn to_bytes(&self) -> (r: Vec<u8>)
        ensures
            r@ == id_bytes(self.spec_value()),
            r@.len() == ID_SIZE,
    {
        let mut r: Vec<u8> = Vec::new();
        r.push(((self.value / 65536) % 256) as u8);
        r.push(((self.value / 256) % 256) as u8);
        r.push((self.value % 256) as u8);
        proof {
            assert(r@ =~= id_bytes(self.value));
        }
        r
    }

    /// Reads an id back from its three-byte big-endian encoding.
    pub fn from_bytes(b0: u8, b1: u8, b2: u8) -> (r: DatagramId)
        ensures
            r.wf(),
            r == DatagramId::spec_from_value(id_of_bytes(b0, b1, b2)),
            r.spec_value() == id_of_bytes(b0, b1, b2),
    {
        DatagramId { value: (b0 as u32) * 65536 + (b1 as u32) * 256 + (b2 as u32) }
    }
}

/// Decoding an id and re-encoding it is the identity on three-byte values:
/// the wire encoding loses nothing.
pub proof fn lemma_id_bytes_roundtrip(v: u32)
    requires
        v < ID_LIMIT,
    ensures
        id_of_bytes(id_bytes(v)[0], id_bytes(v)[1], id_bytes(v)[2]) == v,
{
    assert((((v / 65536) % 256) as u8) as int * 65536 + (((v / 256) % 256) as u8) as int * 256
        + ((v % 256) as u8) as int == v as int) by (bit_vector)
        requires
            v < 16777216u32,
    ;
}

/// Error returned when an integer outside the three-byte range is turned
/// into a `DatagramId`.
#[derive(Clone, Copy, PartialEq, Eq, Structural, Debug)]
pub struct IdRangeError;

/// The kind of a datagram, always the first thing decoded from the wire: it
/// determines how the rest of the datagram is parsed. `Data` datagrams carry
/// application payload; reliable ones are identified by a `DatagramId` so
/// that the receiver can confirm them. `Confirmation` datagrams carry a
/// packed sequence of confirmed ids as their payload.
#[derive(Clone, Copy, PartialEq, Eq, Structural, Debug)]
pub enum DatagramHeader {
    Confirmation,
    Data { reliable: bool, id: DatagramId },
}

impl DatagramHeader {
    /// Well-formedness: a carried id fits into three bytes.
    pub open spec fn wf(&self) -> bool {
        match *self {
            DatagramHeader::Confirmation => true,
            DatagramHeader::Data { reliable, id } => id.wf(),
        }
    }
}

/// The four-byte wire encoding of a header: a kind tag followed by the id
/// bytes (zero for confirmations, which carry no id of their own).
pub open spec fn header_bytes(h: DatagramHeader) -> Seq<u8> {
    match h {
        DatagramHeader::Confirmation => seq![0u8, 0u8, 0u8, 0u8],
        DatagramHeader::Data { reliable, id } => seq![
            if reliable {
                2u8
            } else {
                1u8
            },
        ] + id_bytes(id.spec_value()),
    }
}

/// The header read back from the first four bytes of a datagram, or `None`
/// when the kind tag is unrecognized.
pub open spec fn header_of(b: Seq<u8>) -> Option<DatagramHeader>
    recommends
        b.len() >= 4,
{
    if b[0] == 0u8 {
        Some(DatagramHeader::Confirmation)
    } else if b[0] == 1u8 || b[0] == 2u8 {
        Some(
            DatagramHeader::Data {
                reliable: b[0] == 2u8,
                id: DatagramId::spec_from_value(id_of_bytes(b[1], b[2], b[3])),
            },
        )
    } else {
        None
    }
}

/// Encodes a header and a payload into one datagram: the four header bytes
/// followed by the payload. Payloads over the datagram size limit are
/// rejected.
pub fn encode_datagram(header: DatagramHeader, payload: &Vec<u8>) -> (r: Result<
    Vec<u8>,
    ProtocolError,
>)
    requires
        header.wf(),
    ensures
        r is Ok <==> payload@.len() <= crate::messages::MAX_MESSAGE_SIZE,
        r is Ok ==> r->Ok_0@ == header_bytes(header) + payload@,
        r is Ok ==> r->Ok_0@.len() <= crate::messages::MAX_DATAGRAM_SIZE,
        r is Err ==> r->Err_0 == ProtocolError::Oversize,
{
    if payload.len() > crate::messages::MAX_MESSAGE_SIZE {
        return Err(ProtocolError::Oversize);
    }
    let mut out: Vec<u8> = Vec::new();
    match header {
        DatagramHeader::Confirmation => {
            out.push(0u8);
            out.push(0u8);
            out.push(0u8);
            out.push(0u8);
        },
        DatagramHeader::Data { reliable, id } => {
            if reliable {
                out.push(2u8);
            } else {
                out.push(1u8);
            }
            let id_enc = id.to_bytes();
            out.push(id_enc[0]);
            out.push(id_enc[1]);
            out.push(id_enc[2]);
        },
    }
    proof {
        assert(out@ =~= header_bytes(header));
    }
    let mut i: usize = 0;
    while i < payload.len()
        invariant
            i <= payload@.len(),
            out@ == header_bytes(header) + payload@.take(i as int),
        decreases payload@.len() - i,
    {
        out.push(payload[i]);
        i = i + 1;
        proof {
            assert(out@ =~= header_bytes(header) + payload@.take(i as int));
        }
    }
    proof {
        assert(payload@.take(payload@.len() as int) =~= payload@);
    }
    Ok(out)
}

/// Decodes one datagram into its header and payload. A too-short or
/// oversized buffer and an unrecognized kind tag are protocol errors: the
/// datagram is discarded and the error reported.
pub fn decode_datagram(data: &Vec<u8>) -> (r: Result<(DatagramHeader, Vec<u8>), ProtocolError>)
    ensures
        r is Ok <==> data@.len() >= crate::messages::HEADER_SIZE && data@.len()
            <= crate::messages::MAX_DATAGRAM_SIZE && header_of(data@) is Some,
        r is Ok ==> r->Ok_0.0 == header_of(data@).unwrap() && r->Ok_0.0.wf() && r->Ok_0.1@ == data@.skip(
            crate::messages::HEADER_SIZE as int,
        ),
        data@.len() < crate::messages::HEADER_SIZE ==> r == Result::<
            (DatagramHeader, Vec<u8>),
            ProtocolError,
        >::Err(ProtocolError::TooShort),
        data@.len() > crate::messages::MAX_DATAGRAM_SIZE ==> r == Result::<
            (DatagramHeader, Vec<u8>),
            ProtocolError,
        >::Err(ProtocolError::Oversize),
        data@.len() >= crate::messages::HEADER_SIZE && data@.len()
            <= crate::messages::MAX_DATAGRAM_SIZE && header_of(data@) is None ==> r == Result::<
            (DatagramHeader, Vec<u8>),
            ProtocolError,
        >::Err(ProtocolError::UnknownKind),
{
    if data.len() < crate::messages::HEADER_SIZE {
        return Err(ProtocolError::TooShort);
    }
    if data.len() > crate::messages::MAX_DATAGRAM_SIZE {
        return Err(ProtocolError::Oversize);
    }
    let tag = data[0];
    let header = if tag == 0 {
        DatagramHeader::Confirmation
    } else if tag == 1 || tag == 2 {
        DatagramHeader::Data { reliable: tag == 2, id: DatagramId::from_bytes(data[1], data[2], data[3]) }
    } else {
        return Err(ProtocolError::UnknownKind);
    };
    let mut payload: Vec<u8> = Vec::new();
    let mut i: usize = crate::messages::HEADER_SIZE;
    while i < data.len()
        invariant
            crate::messages::HEADER_SIZE <= i <= data@.len(),
            payload@ == data@.subrange(crate::messages::HEADER_SIZE as int, i as int),
        decreases data@.len() - i,
    {
        payload.push(data[i]);
        i = i + 1;
        proof {
            assert(payload@ =~= data@.subrange(crate::messages::HEADER_SIZE as int, i as int));
        }
    }
    proof {
        assert(id_of_bytes(data@[1], data@[2], data@[3]) < ID_LIMIT);
        assert(payload@ =~= data@.skip(crate::messages::HEADER_SIZE as int));
    }
    Ok((header, payload))
}

/// Parses the payload of a confirmation datagram into the ids it packs. The
/// payload must be an exact sequence of three-byte encodings.
pub fn parse_confirmations(data: &Vec<u8>) -> (r: Result<Vec<DatagramId>, ProtocolError>)
    ensures
        r is Ok <==> data@.len() % 3 == 0,
        r is Ok ==> r->Ok_0@.len() == data@.len() / 3,
        r is Ok ==> forall|k: int|
            0 <= k < r->Ok_0@.len() ==> (#[trigger] r->Ok_0@[k]) == DatagramId::spec_from_value(
                id_of_bytes(data@[3 * k], data@[3 * k + 1], data@[3 * k + 2]),
            ) && r->Ok_0@[k].wf(),
        r is Err ==> r->Err_0 == ProtocolError::Misaligned,
{
    if data.len() % 3 != 0 {
        return Err(ProtocolError::Misaligned);
    }
    let mut ids: Vec<DatagramId> = Vec::new();
    let mut i: usize = 0;
    while i < data.len()
        invariant
            i <= data@.len(),
            i % 3 == 0,
            data@.len() % 3 == 0,
            ids@.len() == i / 3,
            forall|k: int|
                0 <= k < ids@.len() ==> (#[trigger] ids@[k]) == DatagramId::spec_from_value(
                    id_of_bytes(data@[3 * k], data@[3 * k + 1], data@[3 * k + 2]),
                ) && ids@[k].wf(),
        decreases data@.len() - i,
    {
        proof {
            assert((data@.len() - i) % 3 == 0) by {
                assert(data@.len() % 3 == 0 && i % 3 == 0);
            }
            assert(data@.len() - i >= 3);
        }
        let id = DatagramId::from_bytes(data[i], data[i + 1], data[i + 2]);
        proof {
            assert(id_of_bytes(data@[i as int], data@[i as int + 1], data@[i as int + 2])
                < ID_LIMIT);
        }
        ids.push(id);
        i = i + 3;
    }
    Ok(ids)
}

/// Decoding the encoding of any header and payload gives both back: the
/// datagram framing loses nothing.
pub proof fn lemma_datagram_roundtrip(h: DatagramHeader, p: Seq<u8>)
    requires
        h.wf(),
    ensures
        header_of(header_bytes(h) + p) == Some(h),
        (header_bytes(h) + p).skip(4) == p,
{
    let b = header_bytes(h) + p;
    match h {
        DatagramHeader::Confirmation => {
            assert(b[0] == 0u8);
        },
        DatagramHeader::Data { reliable, id } => {
            let v = id.spec_value();
            lemma_id_bytes_roundtrip(v);
            assert(b[1] == id_bytes(v)[0]);
            assert(b[2] == id_bytes(v)[1]);
            assert(b[3] == id_bytes(v)[2]);
            assert(DatagramId::spec_from_value(v) == id);
        },
    }
    assert(b.skip(4) =~= p);
}

/// Errors raised while framing or parsing datagrams. A decode error concerns
/// only the offending datagram: it is reported and the datagram discarded,
/// with no effect on any peer state.
#[derive(Clone, Copy, PartialEq, Eq, Structural, Debug)]
pub enum ProtocolError {
    /// The datagram is shorter than the wire header.
    TooShort,
    /// The payload would not fit into the maximum datagram size.
    Oversize,
    /// The kind tag of the header is not recognized.
    UnknownKind,
    /// The payload length is not consistent with the header kind.
    Misaligned,
}

} // verus!

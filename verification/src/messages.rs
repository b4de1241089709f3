//! Size limits of the wire protocol and the outbound-datagram value handed
//! to the datagram sender task.

use vstd::prelude::*;

use crate::header::DatagramHeader;

verus! {

/// Maximum number of bytes in one datagram, header included.
pub const MAX_DATAGRAM_SIZE: usize = 1024;

/// Number of bytes taken by the encoded datagram header.
pub const HEADER_SIZE: usize = 4;

/// Maximum number of payload bytes in one datagram.
pub const MAX_MESSAGE_SIZE: usize = MAX_DATAGRAM_SIZE - HEADER_SIZE;

/// A datagram ready to be handed to the sender task: header, payload and
/// destination peer.
pub struct OutDatagram {
    pub header: DatagramHeader,
    pub data: Vec<u8>,
    pub addr: u64,
}

impl OutDatagram {
    pub fn new(header: DatagramHeader, data: Vec<u8>, addr: u64) -> (r: OutDatagram)
        ensures
            r.header == header,
            r.data == data,
            r.addr == addr,
    {
        OutDatagram { header, data, addr }
    }
}

} // verus!

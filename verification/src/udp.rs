//! The UDP datagram header.
use crate::{be_u16_at, read_be_u16, UDP_HEADER_SIZE};
use vstd::prelude::*;

verus! {

/// A UDP datagram: its destination port and the bytes after the 8-byte header.
pub struct UdpPacket<'a> {
    pub dst_port: u16,
    pub data: &'a [u8],
}

/// The destination port and payload of a datagram, or `None` when the header does not fit.
pub open spec fn udp_datagram(d: Seq<u8>) -> Option<(u16, Seq<u8>)> {
    if d.len() < UDP_HEADER_SIZE {
        None
    } else {
        Some((be_u16_at(d, 2) as u16, d.subrange(UDP_HEADER_SIZE as int, d.len() as int)))
    }
}

impl<'a> UdpPacket<'a> {
    // UDP Header (8 bytes)
    // +---------+--------+-----------+-----------------------------------------+
    // | Indices | Size   | Field     | Description                             |
    // +---------+--------+-----------+-----------------------------------------+
    // | 0..2    | 2      | src_port  | Source Port                             |
    // | 2..4    | 2      | dst_port  | Destination Port                        |
    // | 4..6    | 2      | length    | Total UDP length                        |
    // | 6..8    | 2      | checksum  | Checksum                                |
    // +---------+--------+-----------+-----------------------------------------+
    pub fn new(data: &'a [u8]) -> (r: Option<Self>)
        ensures
            match (r, udp_datagram(data@)) {
                (Some(p), Some((port, payload))) => p.dst_port == port && p.data@ == payload,
                (None, None) => true,
                _ => false,
            },
    {
        if data.len() < UDP_HEADER_SIZE {
            return None;
        }
        let (header, payload) = data.split_at(UDP_HEADER_SIZE);
        let dst_port = read_be_u16(header, 2);
        Some(Self { dst_port, data: payload })
    }
}

} // verus!

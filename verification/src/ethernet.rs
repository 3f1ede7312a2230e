//! The Ethernet II frame header.
use crate::{be_u16_at, read_be_u16, ETHERNET_HEADER_SIZE};
use vstd::prelude::*;

verus! {

/// An Ethernet frame: its EtherType and the bytes after the 14-byte header.
pub struct EthernetPacket<'a> {
    pub ether_type: u16,
    pub data: &'a [u8],
}

/// The EtherType and payload of a frame, or `None` when the header does not fit.
pub open spec fn ethernet_frame(frame: Seq<u8>) -> Option<(u16, Seq<u8>)> {
    if frame.len() < ETHERNET_HEADER_SIZE {
        None
    } else {
        Some((be_u16_at(frame, 12) as u16, frame.subrange(ETHERNET_HEADER_SIZE as int, frame.len() as int)))
    }
}

impl<'a> EthernetPacket<'a> {
    // Ethernet Header (14 bytes)
    // +---------+--------+-----------+-----------------------------------------+
    // | Indices | Size   | Field     | Value / Description                     |
    // +---------+--------+-----------+-----------------------------------------+
    // | 0..6    | 6      | dst_mac   | Destination MAC                         |
    // | 6..12   | 6      | src_mac   | Source MAC                              |
    // | 12..14  | 2      | type      | EtherType                               |
    // +---------+--------+-----------+-----------------------------------------+
    pub fn new(data: &'a [u8]) -> (r: Option<Self>)
        ensures
            match (r, ethernet_frame(data@)) {
                (Some(p), Some((et, payload))) => p.ether_type == et && p.data@ == payload,
                (None, None) => true,
                _ => false,
            },
    {
        if data.len() < ETHERNET_HEADER_SIZE {
            return None;
        }
        let (header, payload) = data.split_at(ETHERNET_HEADER_SIZE);
        let ether_type = read_be_u16(header, 12);
        Some(Self { ether_type, data: payload })
    }
}

} // verus!

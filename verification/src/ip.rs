//! The IPv4 and IPv6 headers, as far as finding the transport protocol and payload.
use crate::{ETHER_TYPE_IPV4, ETHER_TYPE_IPV6, IPV6_HEADER_SIZE};
use vstd::prelude::*;

verus! {

/// An IP packet: the number of its transport protocol and the bytes after its header.
pub struct IpPacket<'a> {
    pub protocol: u8,
    pub data: &'a [u8],
}

/// The protocol number and header length of an IP header of the given EtherType, or
/// `None` for another EtherType or when the fields read do not fit.
pub open spec fn ip_header(ether_type: u16, d: Seq<u8>) -> Option<(u8, int)> {
    if ether_type == ETHER_TYPE_IPV4 {
        if d.len() >= 10 {
            Some((d[9], (d[0] & 0x0F) * 4))
        } else {
            None
        }
    } else if ether_type == ETHER_TYPE_IPV6 {
        if d.len() >= 7 {
            Some((d[6], IPV6_HEADER_SIZE as int))
        } else {
            None
        }
    } else {
        None
    }
}

/// The protocol number and payload of an IP packet, or `None` as `ip_header` says or when
/// the header is longer than the packet.
pub open spec fn ip_payload(ether_type: u16, d: Seq<u8>) -> Option<(u8, Seq<u8>)> {
    match ip_header(ether_type, d) {
        Some((protocol, header_size)) => if header_size <= d.len() {
            Some((protocol, d.subrange(header_size, d.len() as int)))
        } else {
            None
        },
        None => None,
    }
}

impl<'a> IpPacket<'a> {
    pub fn new(ether_type: u16, data: &'a [u8]) -> (r: Option<Self>)
        ensures
            match (r, ip_payload(ether_type, data@)) {
                (Some(p), Some((protocol, payload))) => p.protocol == protocol && p.data@ == payload,
                (None, None) => true,
                _ => false,
            },
    {
        let (protocol, ip_header_size) = if ether_type == ETHER_TYPE_IPV4 {
            // IPv4 Header (20 bytes minimum)
            // +---------+--------+-----------+-----------------------------------------+
            // | Offset  | Size   | Field     | Description                             |
            // +---------+--------+-----------+-----------------------------------------+
            // | 0       | 1      | ver_ihl   | Version (4) & Header Length (IHL)       |
            // | 1       | 1      | tos       | Type of Service                         |
            // | 2..4    | 2      | total_len | Total length of IP packet               |
            // | 4..6    | 2      | id        | Identification                          |
            // | 6..8    | 2      | flags_off | Flags and Fragment Offset               |
            // | 8       | 1      | ttl       | Time to Live                            |
            // | 9       | 1      | protocol  | Protocol                                |
            // | 10..12  | 2      | checksum  | Header Checksum                         |
            // | 12..16  | 4      | src_ip    | Source IP Address                       |
            // | 16..20  | 4      | dst_ip    | Destination IP Address                  |
            // +---------+--------+-----------+-----------------------------------------+
            if data.len() < 1 {
                return None;
            }
            let ver_ihl = data[0];
            let ihl = ver_ihl & 0x0F;
            let header_size = (ihl as usize) * 4;
            if data.len() < 10 {
                return None;
            }
            (data[9], header_size)
        } else if ether_type == ETHER_TYPE_IPV6 {
            // IPv6 Header (40 bytes)
            // +---------+--------+-----------+-----------------------------------------+
            // | Offset  | Size   | Field     | Description                             |
            // +---------+--------+-----------+-----------------------------------------+
            // | 0..4    | 4      | ver_tc_fl | Version(6), Traffic Class, Flow Label   |
            // | 4..6    | 2      | payload_ln| Payload Length (UDP Header + Data)      |
            // | 6       | 1      | next_hdr  | Next Header                             |
            // | 7       | 1      | hop_limit | Hop Limit (TTL)                         |
            // | 8..24   | 16     | src_ip    | 128-bit Source Address                  |
            // | 24..40  | 16     | dst_ip    | 128-bit Destination Address             |
            // +---------+--------+-----------+-----------------------------------------+
            if data.len() < 7 {
                return None;
            }
            (data[6], IPV6_HEADER_SIZE)
        } else {
            // Unknown EtherType
            return None;
        };
        if ip_header_size > data.len() {
            return None;
        }
        let (_, payload) = data.split_at(ip_header_size);
        Some(Self { protocol, data: payload })
    }
}

/// An IPv4 header is as long as its IHL field (the low four bits of its first byte) says,
/// in 32-bit words: for EtherType 0x0800 the protocol is byte 9 and the payload starts
/// 4 * IHL bytes in, or there is none when the packet is shorter than that or than 10 bytes.
/// For EtherType 0x86DD the header is 40 bytes and the protocol is byte 6; any other
/// EtherType carries no IP packet.
pub proof fn lemma_ip_payload_layout(ether_type: u16, d: Seq<u8>)
    ensures
        ether_type == 0x0800 ==> ip_payload(ether_type, d) == if d.len() >= 10 && 4 * (d[0] % 16)
            <= d.len() {
            Some((d[9], d.subrange(4 * (d[0] % 16), d.len() as int)))
        } else {
            None
        },
        ether_type == 0x86DD ==> ip_payload(ether_type, d) == if d.len() >= 40 {
            Some((d[6], d.subrange(40, d.len() as int)))
        } else {
            None
        },
        ether_type != 0x0800 && ether_type != 0x86DD ==> ip_payload(ether_type, d) is None,
{
    if d.len() > 0 {
        let b = d[0];
        assert(b & 0x0F == b % 16) by (bit_vector);
    }
}

} // verus!

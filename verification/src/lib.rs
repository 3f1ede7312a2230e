//! Parser for the KOSPI 200 market data feed carried in PCAP captures: PCAP records,
//! Ethernet, IPv4/IPv6 and UDP headers, the quote packets themselves, their text rendering,
//! and two reorderings of quotes by the exchange's accept time.
use vstd::prelude::*;

pub mod delay;
pub mod ethernet;
pub mod generate;
pub mod ip;
pub mod pcap;
pub mod quote;
pub mod sequenced;
pub mod time;
pub mod udp;

pub use delay::DelayQueue;
pub use ethernet::EthernetPacket;
pub use ip::IpPacket;
pub use pcap::{PcapIterator, PcapPacket};
pub use quote::{
    Quote, QuoteIterator, QuotePacket, SortedQuoteIteratorBuckets, SortedQuoteIteratorHeap,
    OUTPUT_LEN,
};
pub use sequenced::{build_quote_iterator, parse_accept_time};
pub use time::Timestamp;
pub use udp::UdpPacket;

verus! {

pub const GLOBAL_HEADER_SIZE: usize = 24;
pub const PACKET_HEADER_SIZE: usize = 16;
pub const ETHERNET_HEADER_SIZE: usize = 14;
pub const IPV4_MIN_HEADER_SIZE: usize = 20;
pub const IPV6_HEADER_SIZE: usize = 40;
pub const UDP_HEADER_SIZE: usize = 8;
pub const QUOTE_PACKET_SIZE: usize = 215;

pub const ETHER_TYPE_IPV4: u16 = 0x0800;
pub const ETHER_TYPE_IPV6: u16 = 0x86DD;
pub const PROTOCOL_NUMBER_UDP: u8 = 0x11;

/// The big-endian `u16` at `s[i..i + 2]`.
pub open spec fn be_u16_at(s: Seq<u8>, i: int) -> int {
    s[i] * 256 + s[i + 1]
}

/// The little-endian `u32` at `s[i..i + 4]`.
pub open spec fn le_u32_at(s: Seq<u8>, i: int) -> int {
    s[i] + s[i + 1] * 256 + s[i + 2] * 65536 + s[i + 3] * 16777216
}

pub(crate) fn read_be_u16(s: &[u8], i: usize) -> (r: u16)
    requires
        i + 2 <= s@.len(),
    ensures
        r == be_u16_at(s@, i as int),
{
    (s[i] as u16) * 256 + (s[i + 1] as u16)
}

pub(crate) fn read_le_u32(s: &[u8], i: usize) -> (r: u32)
    requires
        i + 4 <= s@.len(),
    ensures
        r == le_u32_at(s@, i as int),
{
    (s[i] as u32) + (s[i + 1] as u32) * 256 + (s[i + 2] as u32) * 65536 + (s[i + 3] as u32)
        * 16777216
}

} // verus!

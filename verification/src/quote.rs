//! Quote packets of the KOSPI 200 feed: finding them in captured frames, reading their
//! accept time, and handing them out in capture order.
use crate::ethernet::{ethernet_frame, EthernetPacket};
use crate::ip::{ip_payload, IpPacket};
use crate::pcap::{lemma_pcap_packets_times, max_record_time, pcap_packets, PcapIterator, PcapPacket};
use crate::time::{
    clock_nanos, hhmmssuu_field, hhmmssuu_readable, hhmmssuu_text, in_i64, lemma_hhmmssuu_field_bound,
    lemma_hhmmssuu_round_trip, lemma_midnight_starts_day, midnight_spec, Timestamp,
    NANOS_PER_CENT, NANOS_PER_DAY, NANOS_PER_HOUR, NANOS_PER_MIN, NANOS_PER_SEC,
};
use crate::udp::{udp_datagram, UdpPacket};
use crate::{PROTOCOL_NUMBER_UDP, QUOTE_PACKET_SIZE};
use vstd::prelude::*;

pub mod bucket;
pub mod heap;
pub mod line;
pub mod ring;
pub mod run;
pub mod steady;

pub use bucket::SortedQuoteIteratorBuckets;
pub use heap::SortedQuoteIteratorHeap;
pub use line::{COMPACT_LINE_LEN, OUTPUT_LEN};

verus! {

/// The two UDP ports that carry quotes.
pub const QUOTE_PORT_A: u16 = 15515;
pub const QUOTE_PORT_B: u16 = 15516;

/// A quote payload: exactly 215 bytes starting with `B6034`.
pub open spec fn is_quote_payload(d: Seq<u8>) -> bool {
    &&& d.len() == QUOTE_PACKET_SIZE
    &&& d[0] == 66 && d[1] == 54 && d[2] == 48 && d[3] == 51 && d[4] == 52
}

/// A quote packet as it was captured: capture time and payload.
#[derive(Debug, PartialEq, Eq, Clone, Copy)]
pub struct QuotePacket<'a> {
    /// Packet reception time (UTC).
    pub pkt_time: Timestamp,
    pub data: &'a [u8; QUOTE_PACKET_SIZE],
}

impl<'a> View for QuotePacket<'a> {
    type V = (i64, Seq<u8>);

    open spec fn view(&self) -> (i64, Seq<u8>) {
        (self.pkt_time@, self.data@)
    }
}

/// A quote with its accept time at the exchange.
#[derive(Debug, PartialEq, Eq, Clone, Copy)]
pub struct Quote<'a> {
    /// Packet reception time (UTC).
    pub pkt_time: Timestamp,
    /// Accept time at the exchange (UTC).
    pub accept_time: Timestamp,
    /// Midnight (KST) of the day on which the packet was captured.
    pub midnight_at_timezone: Timestamp,
    pub data: &'a [u8; QUOTE_PACKET_SIZE],
}

/// The mathematical value of a `Quote`.
pub struct QuoteView {
    pub pkt_time: i64,
    pub accept_time: i64,
    pub midnight_at_timezone: i64,
    pub data: Seq<u8>,
}

impl<'a> View for Quote<'a> {
    type V = QuoteView;

    open spec fn view(&self) -> QuoteView {
        QuoteView {
            pkt_time: self.pkt_time@,
            accept_time: self.accept_time@,
            midnight_at_timezone: self.midnight_at_timezone@,
            data: self.data@,
        }
    }
}

/// The `HHMMSSuu` accept time field of a quote payload.
pub open spec fn accept_time_text(data: Seq<u8>) -> Seq<u8> {
    data.subrange(206, 214)
}

/// The nanoseconds after midnight that the accept time field denotes.
pub open spec fn accept_delta(data: Seq<u8>) -> int {
    let text = accept_time_text(data);
    clock_nanos(
        hhmmssuu_field(text, 0),
        hhmmssuu_field(text, 1),
        hhmmssuu_field(text, 2),
        hhmmssuu_field(text, 3),
    )
}

/// The KST midnight of the day of a capture time.
pub open spec fn quote_midnight(pkt_time: i64) -> int {
    midnight_spec(pkt_time as int, Timestamp::TIMEZONE_KST as int)
}

/// The arithmetic of `into_quote` stays within `i64` for this packet.
pub open spec fn into_quote_ok(p: (i64, Seq<u8>)) -> bool {
    &&& hhmmssuu_readable(accept_time_text(p.1))
    &&& in_i64(p.0 + Timestamp::TIMEZONE_KST)
    &&& in_i64(quote_midnight(p.0))
    &&& in_i64(accept_delta(p.1) + quote_midnight(p.0))
}

/// The quote made from a packet: its accept time is the time of day in its accept time
/// field, counted from the KST midnight of its capture day.
pub open spec fn quote_view(p: (i64, Seq<u8>)) -> QuoteView {
    QuoteView {
        pkt_time: p.0,
        accept_time: (accept_delta(p.1) + quote_midnight(p.0)) as i64,
        midnight_at_timezone: quote_midnight(p.0) as i64,
        data: p.1,
    }
}

/// Wraps `<&[u8; 215] as TryFrom<&[u8]>>::try_from`: std documents that the conversion
/// succeeds exactly when the slice holds 215 elements, and gives a reference to them.
#[verifier::external_body]
fn as_quote_array<'a>(data: &'a [u8]) -> (r: Option<&'a [u8; QUOTE_PACKET_SIZE]>)
    ensures
        r is Some <==> data@.len() == QUOTE_PACKET_SIZE,
        r matches Some(a) ==> a@ == data@,
{
    data.try_into().ok()
}

impl<'a> QuotePacket<'a> {
    /// A quote packet if `data` is a quote payload (215 bytes starting with `B6034`).
    pub fn new(pkt_time: Timestamp, data: &'a [u8]) -> (r: Option<Self>)
        ensures
            match r {
                Some(q) => is_quote_payload(data@) && q.pkt_time == pkt_time && q.data@ == data@,
                None => !is_quote_payload(data@),
            },
    {
        if data.len() >= 5 && data[0] == 66 && data[1] == 54 && data[2] == 48 && data[3] == 51
            && data[4] == 52 {
            match as_quote_array(data) {
                Some(array) => Some(Self { pkt_time, data: array }),
                None => None,
            }
        } else {
            None
        }
    }

    /// The quote of this packet, with its accept time worked out.
    pub fn into_quote(self) -> (q: Quote<'a>)
        requires
            into_quote_ok(self@),
        ensures
            q@ == quote_view(self@),
    {
        let data = self.data;
        let text = [
            data[206],
            data[207],
            data[208],
            data[209],
            data[210],
            data[211],
            data[212],
            data[213],
        ];
        assert(text@ =~= accept_time_text(data@));
        // Number of nanoseconds after midnight
        let day_nanos = Timestamp::hhmmssuu_to_midnight_delta(&text);
        let midnight_at_timezone = self.pkt_time.get_midnight_at_timezone(Timestamp::TIMEZONE_KST);
        let accept_time = day_nanos + midnight_at_timezone;
        proof {
            Timestamp::lemma_from_nanos_spec((day_nanos@ + midnight_at_timezone@) as i64);
        }
        Quote { pkt_time: self.pkt_time, accept_time, midnight_at_timezone, data }
    }
}

/// Writing a time of day as `HHMMSSuu` into a quote's accept time field and making the quote
/// gives that accept time back, truncated to the centisecond, when the time of day is counted
/// from the KST midnight of the capture day and is under 100 hours.
pub proof fn lemma_accept_time_round_trip(pkt_time: i64, data: Seq<u8>, accept: int)
    requires
        data.len() == QUOTE_PACKET_SIZE,
        into_quote_ok((pkt_time, data)),
        0 <= accept - quote_midnight(pkt_time) < 100 * NANOS_PER_HOUR,
        accept_time_text(data) == hhmmssuu_text(accept - quote_midnight(pkt_time)),
    ensures
        quote_view((pkt_time, data)).accept_time == accept - (accept - quote_midnight(pkt_time)) % (
        NANOS_PER_CENT as int),
{
    lemma_hhmmssuu_round_trip(accept - quote_midnight(pkt_time));
}

/// The quote of a packet whose accept time field (payload bytes 206..214) is digit text
/// `HHMMSSuu` is accepted HH hours, MM minutes, SS seconds and uu hundredths of a second
/// after the midnight that starts the capture's day in Korea (UTC+9): a time at most the
/// capture time and less than a day before it, 9 hours before a whole number of days since
/// the epoch.
pub proof fn lemma_quote_view_digits(p: (i64, Seq<u8>))
    requires
        p.1.len() == QUOTE_PACKET_SIZE,
        forall|j: int| 206 <= j < 214 ==> 48 <= #[trigger] p.1[j] <= 57,
        into_quote_ok(p),
    ensures
        quote_view(p).pkt_time == p.0,
        quote_view(p).data == p.1,
        quote_view(p).midnight_at_timezone <= p.0 < quote_view(p).midnight_at_timezone
            + 86_400_000_000_000,
        (quote_view(p).midnight_at_timezone + 32_400_000_000_000) % 86_400_000_000_000 == 0,
        quote_view(p).accept_time == quote_view(p).midnight_at_timezone + ((10 * (p.1[206] - 48)
            + (p.1[207] - 48)) * 3600 + (10 * (p.1[208] - 48) + (p.1[209] - 48)) * 60 + (10 * (
        p.1[210] - 48) + (p.1[211] - 48))) * 1_000_000_000 + (10 * (p.1[212] - 48) + (p.1[213]
            - 48)) * 10_000_000,
{
    let text = accept_time_text(p.1);
    assert forall|j: int| 0 <= j < 8 implies 48 <= #[trigger] text[j] by {
        assert(text[j] == p.1[206 + j]);
    }
    crate::time::lemma_hhmmssuu_digits(text);
    assert(text[0] == p.1[206] && text[1] == p.1[207] && text[2] == p.1[208] && text[3]
        == p.1[209] && text[4] == p.1[210] && text[5] == p.1[211] && text[6] == p.1[212]
        && text[7] == p.1[213]);
    lemma_midnight_starts_day(p.0 as int, Timestamp::TIMEZONE_KST as int);
}

/// The quote packet carried by a captured frame, if it is one: an Ethernet frame holding an
/// IPv4 or IPv6 packet holding a UDP datagram to port 15515 or 15516 whose payload is a
/// quote payload.
pub open spec fn quote_packet_of_frame(p: (i64, Seq<u8>)) -> Option<(i64, Seq<u8>)> {
    match ethernet_frame(p.1) {
        None => None,
        Some((ether_type, d1)) => match ip_payload(ether_type, d1) {
            None => None,
            Some((protocol, d2)) => if protocol != PROTOCOL_NUMBER_UDP {
                None
            } else {
                match udp_datagram(d2) {
                    None => None,
                    Some((port, d3)) => if (port == QUOTE_PORT_A || port == QUOTE_PORT_B)
                        && is_quote_payload(d3) {
                        Some((p.0, d3))
                    } else {
                        None
                    },
                }
            },
        },
    }
}

/// An Ethernet frame carrying IPv4 (EtherType bytes 12..14 = 08 00) whose IP header is
/// `h` = 4 * IHL bytes long (IHL the low four bits of byte 14) is a quote packet exactly when
/// its IP protocol (byte 23) is UDP (17), its UDP destination port (bytes 16 + h .. 18 + h, big
/// endian) is 15515 or 15516, and the UDP payload from byte 22 + h to the end is 215 bytes
/// starting with `B6034`; the quote packet is then that payload with the frame's capture time.
pub proof fn lemma_ipv4_quote_frame(t: i64, f: Seq<u8>, h: int)
    requires
        f.len() >= 24,
        f[12] == 8 && f[13] == 0,
        h == 4 * (f[14] % 16),
        22 + h <= f.len(),
    ensures
        quote_packet_of_frame((t, f)) == if f[23] == 17 && (f[16 + h] * 256 + f[17 + h] == 15515
            || f[16 + h] * 256 + f[17 + h] == 15516) && f.len() == 22 + h + 215 && f[22 + h] == 66
            && f[23 + h] == 54 && f[24 + h] == 48 && f[25 + h] == 51 && f[26 + h] == 52 {
            Some((t, f.subrange(22 + h, f.len() as int)))
        } else {
            None::<(i64, Seq<u8>)>
        },
{
    let d1 = f.subrange(14, f.len() as int);
    assert(ethernet_frame(f) == Some((0x0800u16, d1)));
    crate::ip::lemma_ip_payload_layout(0x0800, d1);
    assert(d1[0] == f[14] && d1[9] == f[23]);
    let d2 = d1.subrange(h, d1.len() as int);
    assert(d2 =~= f.subrange(14 + h, f.len() as int));
    assert(ip_payload(0x0800, d1) == Some((f[23], d2)));
    assert(d2[2] == f[16 + h] && d2[3] == f[17 + h]);
    let d3 = d2.subrange(8, d2.len() as int);
    assert(d3 =~= f.subrange(22 + h, f.len() as int));
    assert(udp_datagram(d2) == Some(((f[16 + h] * 256 + f[17 + h]) as u16, d3)));
    if d3.len() == 215 {
        assert(d3[0] == f[22 + h] && d3[1] == f[23 + h] && d3[2] == f[24 + h] && d3[3] == f[25 + h]
            && d3[4] == f[26 + h]);
    }
}

/// An Ethernet frame carrying IPv6 (EtherType bytes 12..14 = 86 DD), whose IP header is the
/// 40 bytes from byte 14, is a quote packet exactly when its next header (byte 20) is UDP
/// (17), its UDP destination port (bytes 56..58, big endian) is 15515 or 15516, and the UDP
/// payload from byte 62 to the end is 215 bytes starting with `B6034`; the quote packet is
/// then that payload with the frame's capture time.
pub proof fn lemma_ipv6_quote_frame(t: i64, f: Seq<u8>)
    requires
        f.len() >= 62,
        f[12] == 0x86 && f[13] == 0xDD,
    ensures
        quote_packet_of_frame((t, f)) == if f[20] == 17 && (f[56] * 256 + f[57] == 15515 || f[56]
            * 256 + f[57] == 15516) && f.len() == 62 + 215 && f[62] == 66 && f[63] == 54 && f[64]
            == 48 && f[65] == 51 && f[66] == 52 {
            Some((t, f.subrange(62, f.len() as int)))
        } else {
            None::<(i64, Seq<u8>)>
        },
{
    let d1 = f.subrange(14, f.len() as int);
    assert(ethernet_frame(f) == Some((0x86DDu16, d1)));
    crate::ip::lemma_ip_payload_layout(0x86DD, d1);
    assert(d1[6] == f[20]);
    let d2 = d1.subrange(40, d1.len() as int);
    assert(d2 =~= f.subrange(54, f.len() as int));
    assert(d2[2] == f[56] && d2[3] == f[57]);
    let d3 = d2.subrange(8, d2.len() as int);
    assert(d3 =~= f.subrange(62, f.len() as int));
    assert(udp_datagram(d2) == Some(((f[56] * 256 + f[57]) as u16, d3)));
    if d3.len() == 215 {
        assert(d3[0] == f[62] && d3[1] == f[63] && d3[2] == f[64] && d3[3] == f[65] && d3[4]
            == f[66]);
    }
}

/// A quote payload is exactly 215 bytes whose first five spell `B6034`.
pub proof fn lemma_quote_payload_bytes(d: Seq<u8>)
    ensures
        is_quote_payload(d) <==> d.len() == 215 && d.take(5) == seq![66u8, 54u8, 48u8, 51u8, 52u8],
{
    if d.len() == 215 && d.take(5) == seq![66u8, 54u8, 48u8, 51u8, 52u8] {
        assert(d.take(5)[0] == d[0] && d.take(5)[1] == d[1] && d.take(5)[2] == d[2]
            && d.take(5)[3] == d[3] && d.take(5)[4] == d[4]);
    }
    if is_quote_payload(d) {
        assert(d.take(5) =~= seq![66u8, 54u8, 48u8, 51u8, 52u8]);
    }
}

/// The quote packets among captured frames, in capture order.
pub open spec fn quote_packets(frames: Seq<(i64, Seq<u8>)>) -> Seq<(i64, Seq<u8>)>
    decreases frames.len(),
{
    if frames.len() == 0 {
        Seq::empty()
    } else {
        match quote_packet_of_frame(frames[0]) {
            Some(q) => seq![q] + quote_packets(frames.drop_first()),
            None => quote_packets(frames.drop_first()),
        }
    }
}

pub(crate) fn try_map_to_quote<'b>(pcap_packet: PcapPacket<'b>) -> (r: Option<QuotePacket<'b>>)
    ensures
        match r {
            Some(q) => quote_packet_of_frame(pcap_packet@) == Some(q@),
            None => quote_packet_of_frame(pcap_packet@) is None,
        },
{
    let PcapPacket { pkt_time, data } = pcap_packet;
    let ethernet = EthernetPacket::new(data);
    let EthernetPacket { ether_type, data } = match ethernet {
        Some(e) => e,
        None => return None,
    };
    let ip = IpPacket::new(ether_type, data);
    let IpPacket { protocol, data } = match ip {
        Some(i) => i,
        None => return None,
    };
    // Only accept UDP packets
    if protocol == PROTOCOL_NUMBER_UDP {
        let udp = UdpPacket::new(data);
        let UdpPacket { dst_port, data } = match udp {
            Some(u) => u,
            None => return None,
        };
        if dst_port == QUOTE_PORT_A || dst_port == QUOTE_PORT_B {
            QuotePacket::new(pkt_time, data)
        } else {
            // Reject packets not on ports 15515 and 15516
            None
        }
    } else {
        None
    }
}

/// Hands out the quote packets of a capture in capture order.
pub struct QuoteIterator<'a> {
    pcap_iterator: PcapIterator<'a>,
}

impl<'a> QuoteIterator<'a> {
    pub fn new(pcap_iterator: PcapIterator<'a>) -> (it: Self)
        ensures
            it.pending() == quote_packets(pcap_iterator.packets()),
    {
        Self { pcap_iterator }
    }

    /// The quote packets still to come.
    pub closed spec fn pending(&self) -> Seq<(i64, Seq<u8>)> {
        quote_packets(self.pcap_iterator.packets())
    }

    /// The next quote packet, skipping frames that are not quotes.
    pub fn next(&mut self) -> (r: Option<QuotePacket<'a>>)
        ensures
            match r {
                Some(q) => old(self).pending().len() > 0 && q@ == old(self).pending()[0]
                    && final(self).pending() == old(self).pending().drop_first(),
                None => old(self).pending().len() == 0 && final(self).pending() == old(
                    self,
                ).pending(),
            },
    {
        loop
            invariant
                self.pending() == old(self).pending(),
            decreases self.pcap_iterator@.len(),
        {
            let ghost before = self.pcap_iterator.packets();
            match self.pcap_iterator.next() {
                Some(pcap_packet) => {
                    proof {
                        assert(before =~= seq![before[0]] + before.drop_first());
                        lemma_quote_packets_cons(before);
                    }
                    match try_map_to_quote(pcap_packet) {
                        Some(quote) => return Some(quote),
                        None => {},
                    }
                },
                None => return None,
            }
        }
    }
}

/// A call that gives `x`, the first of the packets `before` pending, and leaves the rest,
/// `after`, pending.
pub open spec fn gives_first(
    before: Seq<(i64, Seq<u8>)>,
    x: (i64, Seq<u8>),
    after: Seq<(i64, Seq<u8>)>,
) -> bool {
    before.len() > 0 && x == before[0] && after == before.drop_first()
}

/// Successive calls that each give the first of the packets pending, `ps[i]`, and leave the
/// rest, `ps[i + 1]`, as `QuoteIterator::next` does while it gives packets: the packets given
/// are the first ones pending at the start, in order, and the rest are still pending. Once a
/// call gives `None`, nothing is pending and nothing changes, so every later call gives
/// `None` too.
pub proof fn lemma_pending_run(ps: Seq<Seq<(i64, Seq<u8>)>>, outs: Seq<(i64, Seq<u8>)>)
    requires
        ps.len() == outs.len() + 1,
        forall|i: int| 0 <= i < outs.len() ==> #[trigger] gives_first(ps[i], outs[i], ps[i + 1]),
    ensures
        outs.len() <= ps[0].len(),
        outs == ps[0].take(outs.len() as int),
        ps[outs.len() as int] == ps[0].skip(outs.len() as int),
{
    lemma_pending_prefix(ps, outs, outs.len() as int);
    assert(outs.take(outs.len() as int) =~= outs);
}

/// The first `k` steps of such a run.
proof fn lemma_pending_prefix(ps: Seq<Seq<(i64, Seq<u8>)>>, outs: Seq<(i64, Seq<u8>)>, k: int)
    requires
        ps.len() == outs.len() + 1,
        forall|i: int| 0 <= i < outs.len() ==> #[trigger] gives_first(ps[i], outs[i], ps[i + 1]),
        0 <= k <= outs.len(),
    ensures
        k <= ps[0].len(),
        outs.take(k) == ps[0].take(k),
        ps[k] == ps[0].skip(k),
    decreases k,
{
    if k == 0 {
        assert(ps[0].skip(0) =~= ps[0]);
        assert(outs.take(0) =~= ps[0].take(0));
    } else {
        lemma_pending_prefix(ps, outs, k - 1);
        let i = k - 1;
        assert(gives_first(ps[i], outs[i], ps[i + 1]));
        assert(ps[0].skip(i)[0] == ps[0][i]);
        assert(outs.take(k) =~= ps[0].take(k)) by {
            assert forall|x: int| 0 <= x < k implies outs.take(k)[x] == ps[0].take(k)[x] by {
                if x < i {
                    assert(outs.take(i)[x] == ps[0].take(i)[x]);
                }
            }
        }
        assert(ps[k] =~= ps[0].skip(k));
    }
}

/// `quote_packets` of a nonempty sequence of frames, by its first frame.
proof fn lemma_quote_packets_cons(frames: Seq<(i64, Seq<u8>)>)
    requires
        frames.len() > 0,
    ensures
        match quote_packet_of_frame(frames[0]) {
            Some(q) => quote_packets(frames).len() > 0 && quote_packets(frames)[0] == q
                && quote_packets(frames).drop_first() == quote_packets(frames.drop_first()),
            None => quote_packets(frames) == quote_packets(frames.drop_first()),
        },
{
    match quote_packet_of_frame(frames[0]) {
        Some(q) => {
            assert((seq![q] + quote_packets(frames.drop_first())).drop_first() =~= quote_packets(
                frames.drop_first(),
            ));
        },
        None => {},
    }
}

/// Capture times that the sorting iterators accept: within 2^62 - 2^56 nanoseconds of the
/// epoch either way (from 1826 to 2113), which keeps every difference of a capture time and
/// an accept time within `i64`.
pub open spec fn capture_time_in_range(t: i64) -> bool {
    -0x3F00_0000_0000_0000 <= t <= 0x3F00_0000_0000_0000
}

/// The largest time of day that an accept time field can spell (each field is at most 2805).
pub open spec fn max_accept_delta() -> int {
    2805 * (NANOS_PER_HOUR + NANOS_PER_MIN + NANOS_PER_SEC + NANOS_PER_CENT)
}

/// A quote packet that the sorting iterators can take.
pub open spec fn sortable_packet(p: (i64, Seq<u8>)) -> bool {
    &&& capture_time_in_range(p.0)
    &&& p.1.len() == QUOTE_PACKET_SIZE
    &&& hhmmssuu_readable(accept_time_text(p.1))
}

/// For a packet captured in range, the quote can be made, its midnight starts the day of the
/// capture, and its accept time lies between that midnight and `max_accept_delta()` later.
pub proof fn lemma_quote_in_range(p: (i64, Seq<u8>))
    requires
        sortable_packet(p),
    ensures
        into_quote_ok(p),
        quote_view(p).midnight_at_timezone <= p.0 < quote_view(p).midnight_at_timezone
            + NANOS_PER_DAY,
        quote_view(p).midnight_at_timezone <= quote_view(p).accept_time
            <= quote_view(p).midnight_at_timezone + max_accept_delta(),
        crate::quote::line::line_printable(quote_view(p)),
{
    lemma_midnight_starts_day(p.0 as int, Timestamp::TIMEZONE_KST as int);
    let text = accept_time_text(p.1);
    lemma_hhmmssuu_field_bound(text, 0);
    lemma_hhmmssuu_field_bound(text, 1);
    lemma_hhmmssuu_field_bound(text, 2);
    lemma_hhmmssuu_field_bound(text, 3);
    assert(0 <= accept_delta(p.1) <= max_accept_delta()) by (nonlinear_arith)
        requires
            accept_delta(p.1) == clock_nanos(
                hhmmssuu_field(text, 0),
                hhmmssuu_field(text, 1),
                hhmmssuu_field(text, 2),
                hhmmssuu_field(text, 3),
            ),
            0 <= hhmmssuu_field(text, 0) <= 2805,
            0 <= hhmmssuu_field(text, 1) <= 2805,
            0 <= hhmmssuu_field(text, 2) <= 2805,
            0 <= hhmmssuu_field(text, 3) <= 2805,
    ;
}

/// A supply of quote packets, taken in order by the sorting iterators.
pub trait QuoteSource<'a> {
    /// The packets still to come.
    spec fn pending(&self) -> Seq<(i64, Seq<u8>)>;

    /// Takes the next packet; gives `None` once there is none left.
    fn next_packet(&mut self) -> (r: Option<QuotePacket<'a>>)
        ensures
            match r {
                Some(q) => old(self).pending().len() > 0 && q@ == old(self).pending()[0]
                    && final(self).pending() == old(self).pending().drop_first(),
                None => old(self).pending().len() == 0 && final(self).pending() == old(
                    self,
                ).pending(),
            },
    ;
}

impl<'a> QuoteSource<'a> for QuoteIterator<'a> {
    closed spec fn pending(&self) -> Seq<(i64, Seq<u8>)> {
        quote_packets(self.pcap_iterator.packets())
    }

    fn next_packet(&mut self) -> (r: Option<QuotePacket<'a>>) {
        self.next()
    }
}

impl<'a> QuoteIterator<'a> {
    /// The quote packets still to come are quote payloads captured from the epoch up to
    /// 2^32 seconds after it, so the sorting iterators can take them wherever their accept
    /// time fields read at least `"00000000"`.
    pub proof fn lemma_pending_sortable(&self)
        ensures
            forall|i: int|
                0 <= i < QuoteSource::pending(self).len() && hhmmssuu_readable(
                    accept_time_text(QuoteSource::pending(self)[i].1),
                ) ==> sortable_packet(#[trigger] QuoteSource::pending(self)[i]),
    {
        let frames = self.pcap_iterator.packets();
        lemma_pcap_packets_times(self.pcap_iterator@);
        lemma_quote_packets_from(frames, 0, max_record_time());
        assert(max_record_time() <= 0x3F00_0000_0000_0000);
        assert(QuoteSource::pending(self) == quote_packets(frames));
        assert forall|i: int|
            0 <= i < QuoteSource::pending(self).len() && hhmmssuu_readable(
                accept_time_text(QuoteSource::pending(self)[i].1),
            ) implies sortable_packet(#[trigger] QuoteSource::pending(self)[i]) by {
            assert(is_quote_payload(quote_packets(frames)[i].1));
        }
    }
}

/// A quote packet found in a frame has the frame's capture time and a quote payload.
pub(crate) proof fn lemma_quote_packet_of_frame(p: (i64, Seq<u8>))
    ensures
        quote_packet_of_frame(p) matches Some(q) ==> q.0 == p.0 && is_quote_payload(q.1),
{
}

/// Each quote packet among `frames` carries a quote payload, and a capture time within
/// bounds that all the frames' capture times keep.
proof fn lemma_quote_packets_from(frames: Seq<(i64, Seq<u8>)>, lo: int, hi: int)
    requires
        forall|j: int| 0 <= j < frames.len() ==> lo <= #[trigger] frames[j].0 <= hi,
    ensures
        forall|i: int|
            0 <= i < quote_packets(frames).len() ==> #[trigger] is_quote_payload(
                quote_packets(frames)[i].1,
            ) && lo <= quote_packets(frames)[i].0 <= hi,
    decreases frames.len(),
{
    if frames.len() > 0 {
        let rest = frames.drop_first();
        assert forall|j: int| 0 <= j < rest.len() implies lo <= #[trigger] rest[j].0 <= hi by {
            assert(rest[j] == frames[j + 1]);
        }
        lemma_quote_packets_from(rest, lo, hi);
        lemma_quote_packets_cons(frames);
        lemma_quote_packet_of_frame(frames[0]);
        assert forall|i: int| 0 <= i < quote_packets(frames).len() implies #[trigger] is_quote_payload(
            quote_packets(frames)[i].1,
        ) && lo <= quote_packets(frames)[i].0 <= hi by {
            match quote_packet_of_frame(frames[0]) {
                Some(q) => {
                    lemma_quote_packet_of_frame(frames[0]);
                    if i > 0 {
                        assert(quote_packets(frames)[i] == quote_packets(frames).drop_first()[i - 1]);
                    }
                },
                None => {},
            }
        }
    }
}

/// Quote packets held in memory, handed out in order.
pub struct QuotePacketList<'a> {
    packets: Vec<QuotePacket<'a>>,
    next_index: usize,
}

impl<'a> QuotePacketList<'a> {
    pub fn new(packets: Vec<QuotePacket<'a>>) -> (list: Self)
        ensures
            QuoteSource::pending(&list) == packets@.map_values(|p: QuotePacket<'a>| p@),
    {
        let list = Self { packets, next_index: 0 };
        assert(list.packets@.skip(0) =~= list.packets@);
        list
    }
}

impl<'a> QuoteSource<'a> for QuotePacketList<'a> {
    closed spec fn pending(&self) -> Seq<(i64, Seq<u8>)> {
        if self.next_index <= self.packets@.len() {
            self.packets@.skip(self.next_index as int).map_values(|p: QuotePacket<'a>| p@)
        } else {
            Seq::empty()
        }
    }

    fn next_packet(&mut self) -> (r: Option<QuotePacket<'a>>) {
        if self.next_index < self.packets.len() {
            let packet = self.packets[self.next_index];
            proof {
                let old_rest = self.packets@.skip(self.next_index as int);
                assert(old_rest.drop_first() =~= self.packets@.skip(self.next_index + 1));
                assert(old_rest.map_values(|p: QuotePacket<'a>| p@).drop_first() =~= old_rest.drop_first().map_values(
                    |p: QuotePacket<'a>| p@,
                ));
            }
            self.next_index = self.next_index + 1;
            Some(packet)
        } else {
            None
        }
    }
}

} // verus!

//! Quote packets numbered by the place of their record in the capture, with their accept time
//! worked out as they are read: what the compact printer prints and reorders.
use crate::pcap::PcapIterator;
use crate::quote::{
    accept_delta, accept_time_text, into_quote_ok, is_quote_payload, lemma_quote_in_range,
    max_accept_delta, quote_packet_of_frame, quote_view, try_map_to_quote, QuoteView,
};
use crate::time::{
    clock_nanos, hhmmssuu_field, hhmmssuu_readable, lemma_hhmmssuu_field_bound, Timestamp,
};
use crate::QUOTE_PACKET_SIZE;
use vstd::prelude::*;

verus! {

/// A quote packet numbered by the place of its record in the capture.
#[derive(Debug, PartialEq, Eq, Clone, Copy)]
pub struct QuotePacket<'a> {
    /// The place of the packet's record in the capture, counted from 0. Quotes of equal
    /// accept time keep the order of these numbers when they are reordered.
    pub seq_num: usize,
    /// Packet reception time (UTC).
    pub pkt_time: Timestamp,
    /// Accept time at the exchange (UTC).
    pub accept_time: Timestamp,
    /// Midnight (KST) of the day on which the packet was captured.
    pub midnight_at_timezone: Timestamp,
    pub data: &'a [u8; QUOTE_PACKET_SIZE],
}

impl<'a> View for QuotePacket<'a> {
    type V = (int, QuoteView);

    open spec fn view(&self) -> (int, QuoteView) {
        (
            self.seq_num as int,
            QuoteView {
                pkt_time: self.pkt_time@,
                accept_time: self.accept_time@,
                midnight_at_timezone: self.midnight_at_timezone@,
                data: self.data@,
            },
        )
    }
}

/// Reads the accept time field (`HHMMSSuu` at bytes 206..214) of a quote payload as hours,
/// minutes, seconds and centiseconds.
pub fn parse_accept_time(data: &[u8; QUOTE_PACKET_SIZE]) -> (fields: [u64; 4])
    requires
        hhmmssuu_readable(accept_time_text(data@)),
    ensures
        forall|i: int| 0 <= i < 4 ==> fields[i] == hhmmssuu_field(accept_time_text(data@), i),
{
    let text = [
        data[206],
        data[207],
        data[208],
        data[209],
        data[210],
        data[211],
        data[212],
        data[213],
    ];
    assert(text@ =~= accept_time_text(data@));
    let fields = Timestamp::parse_hhmmssuu(&text);
    let r = [fields[0] as u64, fields[1] as u64, fields[2] as u64, fields[3] as u64];
    assert forall|i: int| 0 <= i < 4 implies r[i] == hhmmssuu_field(accept_time_text(data@), i) by {
        assert(0 <= fields[i]);
    }
    r
}

impl<'a> QuotePacket<'a> {
    /// The quote packet numbered `seq_num` if `data` is a quote payload (215 bytes starting
    /// with `B6034`), with the accept time of its accept time field counted from the KST
    /// midnight of the day of `pkt_time`.
    pub fn new(seq_num: usize, pkt_time: Timestamp, data: &'a [u8]) -> (r: Option<Self>)
        requires
            is_quote_payload(data@) ==> into_quote_ok((pkt_time@, data@)),
        ensures
            match r {
                Some(q) => is_quote_payload(data@) && q@ == (
                    seq_num as int,
                    quote_view((pkt_time@, data@)),
                ),
                None => !is_quote_payload(data@),
            },
    {
        match crate::quote::QuotePacket::new(pkt_time, data) {
            Some(packet) => {
                let data = packet.data;
                let fields = parse_accept_time(data);
                let hour = fields[0];
                let min = fields[1];
                let sec = fields[2];
                let cent = fields[3];
                let ghost text = accept_time_text(data@);
                proof {
                    lemma_hhmmssuu_field_bound(text, 0);
                    lemma_hhmmssuu_field_bound(text, 1);
                    lemma_hhmmssuu_field_bound(text, 2);
                    lemma_hhmmssuu_field_bound(text, 3);
                    assert(0 <= clock_nanos(hour as int, min as int, sec as int, cent as int)
                        <= max_accept_delta()) by (nonlinear_arith)
                        requires
                            0 <= hour <= 2805,
                            0 <= min <= 2805,
                            0 <= sec <= 2805,
                            0 <= cent <= 2805,
                    ;
                    assert(accept_delta(data@) == clock_nanos(
                        hour as int,
                        min as int,
                        sec as int,
                        cent as int,
                    ));
                }
                // Number of nanoseconds after midnight
                let day_nanos = Timestamp::delta_time_after_midnight(hour, min, sec, cent);
                let midnight_at_timezone = pkt_time.get_midnight_at_timezone(
                    Timestamp::TIMEZONE_KST,
                );
                let accept_time = day_nanos + midnight_at_timezone;
                proof {
                    Timestamp::lemma_from_nanos_spec((day_nanos@ + midnight_at_timezone@) as i64);
                }
                Some(Self { seq_num, pkt_time, accept_time, midnight_at_timezone, data })
            },
            None => None,
        }
    }
}

/// The quote packets among captured frames, in capture order, each with the place of its
/// frame counted from `first`.
pub open spec fn numbered_quotes(frames: Seq<(i64, Seq<u8>)>, first: int) -> Seq<
    (int, (i64, Seq<u8>)),
>
    decreases frames.len(),
{
    if frames.len() == 0 {
        Seq::empty()
    } else {
        let rest = numbered_quotes(frames.drop_first(), first + 1);
        match quote_packet_of_frame(frames[0]) {
            Some(q) => seq![(first, q)] + rest,
            None => rest,
        }
    }
}

/// The numbered quote made from a numbered quote packet.
pub open spec fn numbered_view(p: (int, (i64, Seq<u8>))) -> (int, QuoteView) {
    (p.0, quote_view(p.1))
}

/// Hands out the quote packets of a capture in capture order, numbered by the place of
/// their record.
pub struct QuoteIterator<'a> {
    pcap_iterator: PcapIterator<'a>,
    seq_num: usize,
}

impl<'a> QuoteIterator<'a> {
    /// The numbered quote packets still to come.
    pub closed spec fn pending(&self) -> Seq<(int, (i64, Seq<u8>))> {
        numbered_quotes(self.pcap_iterator.packets(), self.seq_num as int)
    }

    /// The record numbers still to come fit in a `usize`.
    pub closed spec fn wf(&self) -> bool {
        self.seq_num + self.pcap_iterator@.len() <= usize::MAX
    }

    /// The next numbered quote packet, skipping records that are not quotes. Its accept
    /// time field must read at least `"00000000"` as a little-endian `u64`.
    pub fn next(&mut self) -> (r: Option<QuotePacket<'a>>)
        requires
            old(self).wf(),
            old(self).pending().len() > 0 ==> hhmmssuu_readable(
                accept_time_text(old(self).pending()[0].1.1),
            ),
        ensures
            final(self).wf(),
            match r {
                Some(q) => old(self).pending().len() > 0 && q@ == numbered_view(
                    old(self).pending()[0],
                ) && final(self).pending() == old(self).pending().drop_first(),
                None => old(self).pending().len() == 0 && final(self).pending() == old(
                    self,
                ).pending(),
            },
    {
        loop
            invariant
                self.wf(),
                self.pending() == old(self).pending(),
                old(self).pending().len() > 0 ==> hhmmssuu_readable(
                    accept_time_text(old(self).pending()[0].1.1),
                ),
            decreases self.pcap_iterator@.len(),
        {
            let ghost before = self.pcap_iterator.packets();
            let ghost first = self.seq_num as int;
            let seq_num = self.seq_num;
            match self.pcap_iterator.next() {
                Some(pcap_packet) => {
                    self.seq_num = self.seq_num + 1;
                    let ghost frame = pcap_packet@;
                    proof {
                        assert(before =~= seq![before[0]] + before.drop_first());
                    }
                    match try_map_to_quote(pcap_packet) {
                        Some(quote) => {
                            proof {
                                assert(old(self).pending()[0] == (first, quote@));
                                lemma_quote_in_range(quote@);
                            }
                            return QuotePacket::new(seq_num, quote.pkt_time, quote.data.as_slice());
                        },
                        None => {},
                    }
                },
                None => return None,
            }
        }
    }
}

/// The numbered quote packets of a capture, in capture order, numbered from 0.
pub fn build_quote_iterator<'a>(pcap_iterator: PcapIterator<'a>) -> (it: QuoteIterator<'a>)
    ensures
        it.wf(),
        it.pending() == numbered_quotes(pcap_iterator.packets(), 0),
{
    proof {
        pcap_iterator.lemma_len_fits();
    }
    QuoteIterator { pcap_iterator, seq_num: 0 }
}

} // verus!

//! PCAP capture files: the global header and the sequence of packet records.
use crate::time::{in_i64, Timestamp, NANOS_PER_SEC};
use crate::{le_u32_at, read_le_u32, GLOBAL_HEADER_SIZE, PACKET_HEADER_SIZE};
use vstd::prelude::*;

verus! {

/// A captured packet: its capture time and its bytes.
pub struct PcapPacket<'a> {
    pub pkt_time: Timestamp,
    pub data: &'a [u8],
}

impl<'a> View for PcapPacket<'a> {
    type V = (i64, Seq<u8>);

    open spec fn view(&self) -> (i64, Seq<u8>) {
        (self.pkt_time@, self.data@)
    }
}

/// Why a capture's global header cannot be read.
#[derive(Debug, Clone, Copy, PartialEq, Eq)]
pub enum PcapHeaderError {
    /// Fewer bytes than the 24-byte global header.
    TooShort,
    /// The magic number is not that of a little-endian capture with microsecond timestamps.
    NotLittleEndianMicros,
    /// The link type is not Ethernet.
    NotEthernet,
}

/// The magic number of a little-endian capture whose timestamps are in microseconds.
pub const PCAP_MAGIC_LE_MICROS: u32 = 0xa1b2c3d4;

/// The link type of Ethernet captures.
pub const LINKTYPE_ETHERNET: u32 = 1;

/// What the global header check finds, in the order in which it looks.
pub open spec fn global_header_check(d: Seq<u8>) -> Result<(), PcapHeaderError> {
    if d.len() < GLOBAL_HEADER_SIZE {
        Err(PcapHeaderError::TooShort)
    } else if le_u32_at(d, 0) != PCAP_MAGIC_LE_MICROS {
        Err(PcapHeaderError::NotLittleEndianMicros)
    } else if le_u32_at(d, 20) != LINKTYPE_ETHERNET {
        Err(PcapHeaderError::NotEthernet)
    } else {
        Ok(())
    }
}

/// The capture time, in nanoseconds, of the record header at the front of `d`.
pub open spec fn record_time(d: Seq<u8>) -> int {
    le_u32_at(d, 0) * NANOS_PER_SEC + le_u32_at(d, 4) * 1000
}

/// The first record of `d` (capture time and captured bytes) and the bytes after it, or
/// `None` when its 16-byte header or its `cap_len` captured bytes do not fit.
pub open spec fn pcap_record(d: Seq<u8>) -> Option<((i64, Seq<u8>), Seq<u8>)> {
    if d.len() < PACKET_HEADER_SIZE {
        None
    } else {
        let cap_len = le_u32_at(d, 8);
        if d.len() - PACKET_HEADER_SIZE < cap_len {
            None
        } else {
            let end = PACKET_HEADER_SIZE + cap_len;
            Some(
                (
                    (record_time(d) as i64, d.subrange(PACKET_HEADER_SIZE as int, end)),
                    d.subrange(end, d.len() as int),
                ),
            )
        }
    }
}

/// The records of `d`, read one after another up to the first that does not fit.
pub open spec fn pcap_packets(d: Seq<u8>) -> Seq<(i64, Seq<u8>)>
    decreases d.len(),
{
    if d.len() < PACKET_HEADER_SIZE {
        Seq::empty()
    } else {
        match pcap_record(d) {
            Some((packet, rest)) => seq![packet] + pcap_packets(rest),
            None => Seq::empty(),
        }
    }
}

/// Walks the records of a capture whose global header has been checked.
pub struct PcapIterator<'a> {
    data: &'a [u8],
}

impl<'a> View for PcapIterator<'a> {
    /// The bytes not yet read.
    type V = Seq<u8>;

    closed spec fn view(&self) -> Seq<u8> {
        self.data@
    }
}

/// Checks the global header of a capture.
pub fn check_global_header(data: &[u8]) -> (r: Result<(), PcapHeaderError>)
    ensures
        r == global_header_check(data@),
{
    if data.len() < GLOBAL_HEADER_SIZE {
        Err(PcapHeaderError::TooShort)
    } else if read_le_u32(data, 0) != PCAP_MAGIC_LE_MICROS {
        Err(PcapHeaderError::NotLittleEndianMicros)
    } else if read_le_u32(data, 20) != LINKTYPE_ETHERNET {
        Err(PcapHeaderError::NotEthernet)
    } else {
        Ok(())
    }
}

impl<'a> PcapIterator<'a> {
    /// Starts at the first record after the global header, which must be that of a
    /// little-endian capture with microsecond timestamps of Ethernet frames.
    pub fn new(data: &'a [u8]) -> (it: Self)
        requires
            global_header_check(data@) == Ok::<(), PcapHeaderError>(()),
        ensures
            it@ == data@.subrange(GLOBAL_HEADER_SIZE as int, data@.len() as int),
    {
        let (_, records) = data.split_at(GLOBAL_HEADER_SIZE);
        Self { data: records }
    }

    /// The bytes not yet read are those of a slice: at most `usize::MAX` of them.
    pub proof fn lemma_len_fits(&self)
        ensures
            self@.len() <= usize::MAX,
    {
        assert(self.data@.len() == self.data.len());
    }

    /// The records still to come.
    pub open spec fn packets(&self) -> Seq<(i64, Seq<u8>)> {
        pcap_packets(self@)
    }

    // PCAP Packet Header (16 bytes)
    // +---------+--------+----------+------------------------------------------+
    // | Indices | Size   | Field    | Description                              |
    // +---------+--------+----------+------------------------------------------+
    // | 0..4    | 4      | ts_sec   | Timestamp: Seconds since Epoch           |
    // | 4..8    | 4      | ts_usec  | Timestamp: Microseconds                  |
    // | 8..12   | 4      | cap_len  | Number of bytes actually saved in file   |
    // | 12..16  | 4      | orig_len | Original length of packet on the wire    |
    // +---------+--------+----------+------------------------------------------+
    /// Reads the next record. Once a record does not fit, the iterator stays where it is and
    /// gives `None` from then on.
    pub fn next(&mut self) -> (r: Option<PcapPacket<'a>>)
        ensures
            match pcap_record(old(self)@) {
                Some((packet, rest)) => r matches Some(p) && p@ == packet && final(self)@ == rest,
                None => r is None && final(self)@ == old(self)@,
            },
            match r {
                Some(p) => old(self).packets().len() > 0 && p@ == old(self).packets()[0]
                    && final(self).packets() == old(self).packets().drop_first(),
                None => old(self).packets().len() == 0 && final(self)@ == old(self)@,
            },
            r is Some ==> final(self)@.len() < old(self)@.len(),
            match r {
                Some(p) => 0 <= p.pkt_time@ <= u32::MAX * NANOS_PER_SEC + u32::MAX * 1000,
                None => true,
            },
    {
        proof {
            lemma_pcap_packets_unfold(self@);
        }
        if self.data.len() < PACKET_HEADER_SIZE {
            return None;
        }
        let (header, tail) = self.data.split_at(PACKET_HEADER_SIZE);
        let ts_sec = read_le_u32(header, 0);
        let ts_usec = read_le_u32(header, 4);
        let cap_len = read_le_u32(header, 8) as usize;
        if cap_len > tail.len() {
            return None;
        }
        let (payload, next_data) = tail.split_at(cap_len);
        let pkt_time = Timestamp::from_secs_and_nanos(ts_sec as i64, ts_usec as i64 * 1000);
        let packet = PcapPacket { pkt_time, data: payload };
        self.data = next_data;
        proof {
            assert(packet@.1 =~= old(self)@.subrange(16, 16 + cap_len));
            assert(self@ =~= old(self)@.subrange(16 + cap_len, old(self)@.len() as int));
        }
        Some(packet)
    }
}

/// `pcap_packets` is the first record followed by the records of what follows it.
pub proof fn lemma_pcap_packets_unfold(d: Seq<u8>)
    ensures
        match pcap_record(d) {
            Some((packet, rest)) => pcap_packets(d).len() > 0 && pcap_packets(d)[0] == packet
                && pcap_packets(d).drop_first() == pcap_packets(rest),
            None => pcap_packets(d).len() == 0,
        },
{
    match pcap_record(d) {
        Some((packet, rest)) => {
            assert((seq![packet] + pcap_packets(rest)).drop_first() =~= pcap_packets(rest));
        },
        None => {},
    }
}

/// The bytes of `d` left once its records are read: from the first record that does not fit.
pub open spec fn pcap_rest(d: Seq<u8>) -> Seq<u8>
    decreases d.len(),
{
    if d.len() < PACKET_HEADER_SIZE {
        d
    } else {
        match pcap_record(d) {
            Some((_, rest)) => pcap_rest(rest),
            None => d,
        }
    }
}

/// Where record `i` of the records `p` starts: after the 16-byte headers and the captured
/// bytes of the records before it.
pub open spec fn record_offset(p: Seq<(i64, Seq<u8>)>, i: int) -> int
    decreases i,
{
    if i <= 0 {
        0
    } else {
        record_offset(p, i - 1) + PACKET_HEADER_SIZE + p[i - 1].1.len()
    }
}

proof fn lemma_record_offset_nonneg(p: Seq<(i64, Seq<u8>)>, i: int)
    ensures
        0 <= record_offset(p, i),
    decreases i,
{
    if i > 0 {
        lemma_record_offset_nonneg(p, i - 1);
    }
}

proof fn lemma_record_offset_cons(x: (i64, Seq<u8>), q: Seq<(i64, Seq<u8>)>, i: int)
    requires
        0 <= i <= q.len(),
    ensures
        record_offset(seq![x] + q, i + 1) == PACKET_HEADER_SIZE + x.1.len() + record_offset(q, i),
    decreases i,
{
    let s = seq![x] + q;
    assert(s[0] == x);
    assert(record_offset(s, i + 1) == record_offset(s, i) + PACKET_HEADER_SIZE + s[i].1.len());
    if i > 0 {
        lemma_record_offset_cons(x, q, i - 1);
        assert(s[i] == q[i - 1]);
        assert(record_offset(q, i) == record_offset(q, i - 1) + PACKET_HEADER_SIZE + q[i - 1].1.len());
    } else {
        assert(record_offset(s, 0) == 0);
        assert(record_offset(q, 0) == 0);
    }
}

/// What splitting the capture says of record `i`.
pub open spec fn record_at(d: Seq<u8>, i: int) -> bool {
    let p = pcap_packets(d);
    let o = record_offset(p, i);
    &&& 0 <= o
    &&& o + PACKET_HEADER_SIZE + p[i].1.len() <= d.len()
    &&& p[i].0 == le_u32_at(d, o) * 1_000_000_000 + le_u32_at(d, o + 4) * 1000
    &&& le_u32_at(d, o + 8) == p[i].1.len()
    &&& d.subrange(o + PACKET_HEADER_SIZE, o + PACKET_HEADER_SIZE + p[i].1.len()) == p[i].1
}

proof fn lemma_record_at(d: Seq<u8>, i: int)
    requires
        0 <= i < pcap_packets(d).len(),
    ensures
        record_at(d, i),
    decreases d.len(),
{
    lemma_pcap_packets_unfold(d);
    let p = pcap_packets(d);
    if let Some((x, rest)) = pcap_record(d) {
        let h = PACKET_HEADER_SIZE + x.1.len();
        let q = pcap_packets(rest);
        assert(p =~= seq![x] + q);
        assert(rest =~= d.subrange(h, d.len() as int));
        if i == 0 {
            assert(d.subrange(0, d.len() as int) =~= d);
        } else {
            lemma_record_at(rest, i - 1);
            lemma_record_offset_cons(x, q, i - 1);
            assert(p[i] == q[i - 1]);
            let o1 = record_offset(q, i - 1);
            assert(rest.subrange(o1, rest.len() as int) =~= d.subrange(h + o1, d.len() as int));
            assert(rest[o1 + 8] == d[h + o1 + 8] && rest[o1 + 9] == d[h + o1 + 9]);
            assert(rest[o1 + 10] == d[h + o1 + 10] && rest[o1 + 11] == d[h + o1 + 11]);
            assert(rest.subrange(o1 + PACKET_HEADER_SIZE, o1 + PACKET_HEADER_SIZE + q[i - 1].1.len())
                =~= d.subrange(h + o1 + PACKET_HEADER_SIZE, h + o1 + PACKET_HEADER_SIZE + q[i - 1].1.len()));
        }
    }
}

proof fn lemma_pcap_rest(d: Seq<u8>)
    ensures
        record_offset(pcap_packets(d), pcap_packets(d).len() as int) <= d.len(),
        d.subrange(record_offset(pcap_packets(d), pcap_packets(d).len() as int), d.len() as int)
            == pcap_rest(d),
        pcap_record(pcap_rest(d)) is None,
    decreases d.len(),
{
    lemma_pcap_packets_unfold(d);
    let p = pcap_packets(d);
    if d.len() >= PACKET_HEADER_SIZE && pcap_record(d) is Some {
        let (x, rest) = pcap_record(d)->0;
        let h = PACKET_HEADER_SIZE + x.1.len();
        let q = pcap_packets(rest);
        lemma_pcap_rest(rest);
        assert(p =~= seq![x] + q);
        assert(rest =~= d.subrange(h, d.len() as int));
        lemma_record_offset_cons(x, q, q.len() as int);
        let on = record_offset(q, q.len() as int);
        assert(p.len() == q.len() + 1);
        assert(rest.len() == d.len() - h);
        lemma_record_offset_nonneg(q, q.len() as int);
        assert(0 <= on <= rest.len());
        assert(rest.subrange(on, rest.len() as int) =~= d.subrange(h + on, d.len() as int));
        assert(pcap_rest(d) == pcap_rest(rest));
    } else {
        assert(p.len() == 0);
        assert(d.subrange(0, d.len() as int) =~= d);
    }
}

/// The records split the capture: record `i` is a 16-byte header at `record_offset`, whose
/// little-endian `u32` fields at 0..4 and 4..8 give its capture time in seconds and
/// microseconds and whose `cap_len` field at 8..12 equals the number of its captured bytes,
/// followed by those bytes, one after another from the start; what follows the last record
/// holds no whole record.
pub proof fn lemma_pcap_split(d: Seq<u8>)
    ensures
        forall|i: int| 0 <= i < pcap_packets(d).len() ==> #[trigger] record_at(d, i),
        record_offset(pcap_packets(d), pcap_packets(d).len() as int) <= d.len(),
        d.subrange(record_offset(pcap_packets(d), pcap_packets(d).len() as int), d.len() as int)
            == pcap_rest(d),
        pcap_record(pcap_rest(d)) is None,
{
    assert forall|i: int| 0 <= i < pcap_packets(d).len() implies #[trigger] record_at(d, i) by {
        lemma_record_at(d, i);
    }
    lemma_pcap_rest(d);
}

/// The largest capture time a record header can spell.
pub open spec fn max_record_time() -> int {
    u32::MAX * NANOS_PER_SEC + u32::MAX * 1000
}

/// Every record of `d` has a capture time from the epoch up to `max_record_time()`.
pub proof fn lemma_pcap_packets_times(d: Seq<u8>)
    ensures
        forall|i: int|
            0 <= i < pcap_packets(d).len() ==> 0 <= #[trigger] pcap_packets(d)[i].0
                <= max_record_time(),
    decreases d.len(),
{
    match pcap_record(d) {
        Some((packet, rest)) => {
            if d.len() >= PACKET_HEADER_SIZE {
                lemma_pcap_packets_times(rest);
                assert forall|i: int|
                    0 <= i < pcap_packets(d).len() implies 0 <= #[trigger] pcap_packets(d)[i].0
                    <= max_record_time() by {
                    if i > 0 {
                        assert(pcap_packets(d)[i] == pcap_packets(rest)[i - 1]);
                    }
                }
            }
        },
        None => {},
    }
}

} // verus!

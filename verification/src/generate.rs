//! Synthetic quote frames, for benchmarking the parser on captures of any size.
use crate::quote::{quote_packet_of_frame, QUOTE_PORT_A};
use crate::time::{hhmmssuu_text, Timestamp};
use crate::{ETHERNET_HEADER_SIZE, IPV4_MIN_HEADER_SIZE, QUOTE_PACKET_SIZE, UDP_HEADER_SIZE};
use vstd::prelude::*;

verus! {

/// The bytes of the Ethernet, IPv4 and UDP headers put before each generated quote.
pub const NETWORK_HEADERS_SIZE: usize = ETHERNET_HEADER_SIZE + IPV4_MIN_HEADER_SIZE
    + UDP_HEADER_SIZE;

/// The `width` lowest decimal digits of `n` in ASCII, most significant first.
pub open spec fn padded_decimal(n: nat, width: nat) -> Seq<u8>
    decreases width,
{
    if width == 0 {
        Seq::empty()
    } else {
        padded_decimal(n / 10, (width - 1) as nat).push((n % 10 + 48) as u8)
    }
}

/// A generated quote payload: `B6034`, the counter as a 12-digit issue code, ASCII `'0'`s,
/// the accept time as `HHMMSSuu` (counted from 0), and the end of message byte `0xFF`.
pub open spec fn generated_quote(counter: nat, accept_time: int) -> Seq<u8> {
    seq![66u8, 54u8, 48u8, 51u8, 52u8] + padded_decimal(counter, 12) + Seq::new(
        189,
        |_i: int| 48u8,
    ) + hhmmssuu_text(accept_time) + seq![0xFFu8]
}

/// A valid header taken from mdf-kospi200.20110216-0.pcap: Ethernet (IPv4), IPv4 with a
/// 20-byte header carrying UDP, and UDP from and to port 15515.
pub open spec fn network_headers() -> Seq<u8> {
    seq![
        1u8, 0, 94, 37, 54, 61, 0, 18, 68, 200, 56, 10, 8, 0, 69, 0, 0, 243, 231, 179, 0, 0, 59, 17,
        181, 197, 192, 166, 1, 120, 233, 37, 54, 61, 141, 203, 60, 155, 0, 223, 168, 164,
    ]
}

/// Writes the `width` lowest decimal digits of `n` so that they end just before `end`.
fn write_decimal(out: &mut [u8; QUOTE_PACKET_SIZE], end: usize, n: u64, width: usize)
    requires
        width <= end <= QUOTE_PACKET_SIZE,
    ensures
        final(out)@.subrange(end - width, end as int) == padded_decimal(n as nat, width as nat),
        forall|i: int|
            0 <= i < QUOTE_PACKET_SIZE && !(end - width <= i < end) ==> final(out)@[i] == old(
                out,
            )@[i],
    decreases width,
{
    if width > 0 {
        out[end - 1] = (n % 10) as u8 + 48;
        write_decimal(out, end - 1, n / 10, width - 1);
        assert(out@.subrange(end - width, end as int) =~= out@.subrange(
            end - width,
            end - 1,
        ).push(out@[end - 1]));
    } else {
        assert(out@.subrange(end - width, end as int) =~= Seq::<u8>::empty());
    }
}

/// Generates a quote payload. `counter` is written to the issue code for checking the sorting
/// algorithm.
pub fn gen_quote(counter: usize, accept_time: i64) -> (out: [u8; QUOTE_PACKET_SIZE])
    requires
        counter < 1_000_000_000_000,
    ensures
        out@ == generated_quote(counter as nat, accept_time as int),
{
    // Fill buffer with ASCII 0
    let mut out = [48u8; QUOTE_PACKET_SIZE];
    out[0] = 66;
    out[1] = 54;
    out[2] = 48;
    out[3] = 51;
    out[4] = 52;
    // Issue code
    write_decimal(&mut out, 17, counter as u64, 12);
    // Write accept time
    let day_nanos = Timestamp::from_secs_and_nanos(0, accept_time);
    let hhmmssuu = day_nanos.format_hhmmssuu(Timestamp::from_secs_and_nanos(0, 0));
    let mut k: usize = 0;
    while k < 8
        invariant
            k <= 8,
            hhmmssuu@ == hhmmssuu_text(accept_time as int),
            out@.subrange(5, 17) == padded_decimal(counter as nat, 12),
            forall|i: int| 0 <= i < 5 ==> out@[i] == seq![66u8, 54u8, 48u8, 51u8, 52u8][i],
            forall|i: int| 17 <= i < 206 ==> out@[i] == 48u8,
            forall|i: int| 206 <= i < 206 + k ==> out@[i] == hhmmssuu@[i - 206],
            forall|i: int| 206 + k <= i < QUOTE_PACKET_SIZE ==> out@[i] == 48u8,
        decreases 8 - k,
    {
        out[206 + k] = hhmmssuu[k];
        k = k + 1;
    }
    // End of message
    out[214] = 0xFF;
    assert(out@ =~= generated_quote(counter as nat, accept_time as int));
    out
}

/// A generated frame: the network headers followed by the generated quote payload.
pub fn gen_frame(counter: usize, accept_time: i64) -> (frame: Vec<u8>)
    requires
        counter < 1_000_000_000_000,
    ensures
        frame@ == network_headers() + generated_quote(counter as nat, accept_time as int),
{
    let mut frame: Vec<u8> = vec![
        1, 0, 94, 37, 54, 61, 0, 18, 68, 200, 56, 10, 8, 0, 69, 0, 0, 243, 231, 179, 0, 0, 59, 17,
        181, 197, 192, 166, 1, 120, 233, 37, 54, 61, 141, 203, 60, 155, 0, 223, 168, 164,
    ];
    assert(frame@ =~= network_headers());
    let quote = gen_quote(counter, accept_time);
    let mut k: usize = 0;
    while k < QUOTE_PACKET_SIZE
        invariant
            k <= QUOTE_PACKET_SIZE,
            quote@ == generated_quote(counter as nat, accept_time as int),
            frame@ == network_headers() + quote@.subrange(0, k as int),
        decreases QUOTE_PACKET_SIZE - k,
    {
        frame.push(quote[k]);
        assert(quote@.subrange(0, k + 1) =~= quote@.subrange(0, k as int).push(quote@[k as int]));
        k = k + 1;
    }
    assert(quote@.subrange(0, QUOTE_PACKET_SIZE as int) =~= quote@);
    frame
}

pub proof fn lemma_padded_decimal_len(n: nat, width: nat)
    ensures
        padded_decimal(n, width).len() == width,
    decreases width,
{
    if width > 0 {
        lemma_padded_decimal_len(n / 10, (width - 1) as nat);
    }
}

/// A generated frame is read back as a quote packet whose payload is the generated quote.
pub proof fn lemma_generated_frame_is_quote(pkt_time: i64, counter: nat, accept_time: int)
    ensures
        quote_packet_of_frame(
            (pkt_time, network_headers() + generated_quote(counter, accept_time)),
        ) == Some((pkt_time, generated_quote(counter, accept_time))),
{
    let q = generated_quote(counter, accept_time);
    lemma_padded_decimal_len(counter, 12);
    assert(q.len() == QUOTE_PACKET_SIZE);
    assert(q[0] == 66 && q[1] == 54 && q[2] == 48 && q[3] == 51 && q[4] == 52);
    let frame = network_headers() + q;
    assert(network_headers().len() == 42);
    assert(frame.len() == 42 + QUOTE_PACKET_SIZE);
    let d1 = frame.subrange(14, frame.len() as int);
    let d2 = d1.subrange(20, d1.len() as int);
    let d3 = d2.subrange(8, d2.len() as int);
    assert(d3 =~= q);
    assert(frame[12] == 8 && frame[13] == 0);
    assert(crate::ethernet::ethernet_frame(frame) == Some((crate::ETHER_TYPE_IPV4, d1)));
    assert(d1[0] == 69 && d1[9] == 17);
    assert(69u8 & 0x0Fu8 == 5u8) by (bit_vector);
    assert(crate::ip::ip_header(crate::ETHER_TYPE_IPV4, d1) == Some((17u8, 20int)));
    assert(crate::ip::ip_payload(crate::ETHER_TYPE_IPV4, d1) == Some((17u8, d2)));
    assert(d2[2] == 60 && d2[3] == 155);
    assert(crate::udp::udp_datagram(d2) == Some((QUOTE_PORT_A, d3)));
    assert(crate::quote::is_quote_payload(d3));
}

} // verus!

use kospi_parser::quote::{QuotePacketList, COMPACT_LINE_LEN, OUTPUT_LEN};
use kospi_parser::{
    parse_accept_time, Quote, QuotePacket, SortedQuoteIteratorBuckets, SortedQuoteIteratorHeap,
    Timestamp, QUOTE_PACKET_SIZE,
};

#[test]
fn test_parse_accept_time() {
    let mut data = [0; QUOTE_PACKET_SIZE];
    data[206..214].copy_from_slice(b"12304580");
    let [hour, min, sec, cent] = parse_accept_time(&data);

    assert_eq!(hour, 12);
    assert_eq!(min, 30);
    assert_eq!(sec, 45);
    assert_eq!(cent, 80);
}

#[test]
fn test_bucket_sort_corner_case() {
    let nanos_per_cent: i64 = 10000000;
    let three_seconds = Timestamp::from_secs_and_nanos(3, 0);

    let start = Timestamp::from_secs_and_nanos(1297814400, 0);
    let midnight = start.get_midnight_at_timezone(Timestamp::TIMEZONE_KST);

    // (data, accept_time, pkt_time)
    let mut packet_data = [
        (
            vec![b'0'; QUOTE_PACKET_SIZE],
            start + Timestamp::from_secs_and_nanos(0, 0),
            start + Timestamp::from_secs_and_nanos(0, 5 * nanos_per_cent),
        ),
        (
            vec![b'0'; QUOTE_PACKET_SIZE],
            start + Timestamp::from_secs_and_nanos(0, 10 * nanos_per_cent),
            start + Timestamp::from_secs_and_nanos(0, 15 * nanos_per_cent),
        ),
        (
            vec![b'0'; QUOTE_PACKET_SIZE],
            start + Timestamp::from_secs_and_nanos(0, 20 * nanos_per_cent),
            start + Timestamp::from_secs_and_nanos(0, 25 * nanos_per_cent),
        ),
        (
            vec![b'0'; QUOTE_PACKET_SIZE],
            start + Timestamp::from_secs_and_nanos(0, 512 * nanos_per_cent),
            start + Timestamp::from_secs_and_nanos(0, 517 * nanos_per_cent),
        ),
        (
            vec![b'0'; QUOTE_PACKET_SIZE],
            start + Timestamp::from_secs_and_nanos(0, 522 * nanos_per_cent),
            start + Timestamp::from_secs_and_nanos(0, 527 * nanos_per_cent),
        ),
        (
            vec![b'0'; QUOTE_PACKET_SIZE],
            start + Timestamp::from_secs_and_nanos(0, 532 * nanos_per_cent),
            start + Timestamp::from_secs_and_nanos(0, 537 * nanos_per_cent),
        ),
    ];

    let packets = packet_data.each_mut().map(|(data, accept_time, pkt_time)| {
        data[206..214].copy_from_slice(&accept_time.as_hhmmssuu_string(midnight));
        QuotePacket {
            pkt_time: *pkt_time,
            data: data.as_slice().try_into().unwrap(),
        }
    });

    for (i, p) in packets.iter().enumerate() {
        let Quote { accept_time, .. } = p.clone().into_quote();
        assert!(
            p.pkt_time - accept_time <= three_seconds,
            "{}: {:?}",
            i,
            p.pkt_time - accept_time
        );
    }

    let mut quote_iterator_a =
        SortedQuoteIteratorHeap::with_capacity(QuotePacketList::new(packets.to_vec()), 10);
    let mut quote_iterator_b =
        SortedQuoteIteratorBuckets::with_capacity(QuotePacketList::new(packets.to_vec()), 32);

    let mut accept_time_a = Timestamp::from_secs_and_nanos(0, 0);
    let mut accept_time_b = Timestamp::from_secs_and_nanos(0, 0);

    while let (Some(a), Some(b)) = (quote_iterator_a.next(), quote_iterator_b.next()) {
        // Test if accept times are monotonically increasing
        assert!(accept_time_a <= a.accept_time);
        accept_time_a = a.accept_time;

        assert!(accept_time_b <= b.accept_time);
        accept_time_b = b.accept_time;

        assert_eq!(a, b);
    }
}

fn quote_payload(accept: &[u8; 8]) -> Vec<u8> {
    let mut data = vec![b'0'; QUOTE_PACKET_SIZE];
    data[..5].copy_from_slice(b"B6034");
    data[5..17].copy_from_slice(b"KR4301F32778");
    data[206..214].copy_from_slice(accept);
    data
}

#[test]
fn quote_packet_new_needs_b6034_and_215_bytes() {
    let t = Timestamp::from_secs_and_nanos(1297814400, 0);
    let data = quote_payload(b"09000000");
    assert!(QuotePacket::new(t, &data).is_some());
    assert!(QuotePacket::new(t, &data[..214]).is_none());
    let mut longer = data.clone();
    longer.push(0);
    assert!(QuotePacket::new(t, &longer).is_none());
    let mut other = data.clone();
    other[4] = b'5';
    assert!(QuotePacket::new(t, &other).is_none());
    assert!(QuotePacket::new(t, b"B603").is_none());
}

#[test]
fn into_quote_counts_the_accept_time_from_kst_midnight() {
    // 09:00:00.006356 KST on 2011-02-16
    let pkt_time = Timestamp::from_secs_and_nanos(1297814400, 6_356_000);
    let data = quote_payload(b"08595997");
    let quote = QuotePacket::new(pkt_time, &data).unwrap().into_quote();
    let midnight = Timestamp::from_secs_and_nanos(1297814400 - 9 * 3600, 0);
    assert_eq!(quote.midnight_at_timezone, midnight);
    assert_eq!(
        quote.accept_time,
        midnight + Timestamp::from_secs_and_nanos(8 * 3600 + 59 * 60 + 59, 970_000_000)
    );
    assert_eq!(quote.pkt_time, pkt_time);
}

#[test]
fn to_line_bytes_trims_and_aligns_the_book() {
    let pkt_time = Timestamp::from_secs_and_nanos(1297814400, 500_708_000);
    let mut data = quote_payload(b"09000000");
    // bid 5: price 01340, quantity 0000000; bid 1: price 01360, quantity 0000007
    data[77..82].copy_from_slice(b"01340");
    data[29..34].copy_from_slice(b"01360");
    data[34..41].copy_from_slice(b"0000007");
    // ask 1: price 01450, quantity 0000003; ask 5: price 00000, quantity 1234567
    data[96..101].copy_from_slice(b"01450");
    data[101..108].copy_from_slice(b"0000003");
    data[144..149].copy_from_slice(b"00000");
    data[149..156].copy_from_slice(b"1234567");
    let quote = QuotePacket::new(pkt_time, &data).unwrap().into_quote();
    let line = quote.to_line_bytes();
    assert_eq!(line.len(), OUTPUT_LEN);
    let text = std::str::from_utf8(&line).unwrap();
    let expected = String::new()
        + "09:00:00.500708 09:00:00.000000 KR4301F32778 "
        + "       0@1340 "
        + "          0@0 "
        + "          0@0 "
        + "          0@0 "
        + "       7@1360 "
        + "       3@1450 "
        + "          0@0 "
        + "          0@0 "
        + "          0@0 "
        + "    1234567@0\n";
    assert_eq!(text, expected);

    let fast = quote.to_line_bytes_fast();
    let fast_text = std::str::from_utf8(&fast).unwrap();
    assert_eq!(&fast_text[45..59], "0000000@01340 ");
    assert_eq!(&fast_text[171..185], "1234567@00000\n");
}

#[test]
fn write_line_uses_the_compact_layout() {
    let pkt_time = Timestamp::from_secs_and_nanos(1297814400, 6_437_000);
    let mut data = quote_payload(b"08595997");
    data[29..34].copy_from_slice(b"01360");
    data[34..41].copy_from_slice(b"0000007");
    let packet = kospi_parser::sequenced::QuotePacket::new(7, pkt_time, &data).unwrap();
    assert_eq!(packet.seq_num, 7);
    let mut line = [0u8; COMPACT_LINE_LEN];
    packet.write_line(&mut line);
    let text = std::str::from_utf8(&line).unwrap();
    assert_eq!(&text[..31], "09000000 08595997 KR4301F32778 ");
    assert_eq!(&text[31..45], "0000000@00000 ");
    assert_eq!(&text[87..101], "0000007@01360 ");
    assert!(text.ends_with("0000000@00000\n"));
}

#[test]
fn numbered_packet_works_out_its_accept_time() {
    // 2011-02-16 00:00:06.437 KST, accept time field 08:59:59.97
    let pkt_time = Timestamp::from_secs_and_nanos(1297814400 - 9 * 3600 + 6, 437_000_000);
    let data = quote_payload(b"08595997");
    let packet = kospi_parser::sequenced::QuotePacket::new(3, pkt_time, &data).unwrap();
    let midnight = Timestamp::from_secs_and_nanos(1297814400 - 9 * 3600, 0);
    assert_eq!(packet.seq_num, 3);
    assert_eq!(packet.pkt_time, pkt_time);
    assert_eq!(packet.midnight_at_timezone, midnight);
    assert_eq!(
        packet.accept_time,
        midnight + Timestamp::from_secs_and_nanos(8 * 3600 + 59 * 60 + 59, 970_000_000)
    );
    assert_eq!(packet.data[..], data[..]);
    assert!(kospi_parser::sequenced::QuotePacket::new(3, pkt_time, &data[..214]).is_none());
    let mut other = data.clone();
    other[4] = b'5';
    assert!(kospi_parser::sequenced::QuotePacket::new(3, pkt_time, &other).is_none());
}

fn ring_output(packets: Vec<QuotePacket<'_>>) -> Vec<Quote<'_>> {
    let mut it = SortedQuoteIteratorBuckets::with_capacity(QuotePacketList::new(packets), 4);
    let mut out = Vec::new();
    while let Some(q) = it.next() {
        out.push(q);
    }
    assert!(it.next().is_none());
    out
}

#[test]
fn ring_lets_equal_keys_out_in_the_order_taken_in() {
    let midnight = Timestamp::from_secs_and_nanos(1297814400 - 9 * 3600, 0);
    let pkt_time = midnight + Timestamp::from_secs_and_nanos(9 * 3600 + 1, 0);
    let mut first = quote_payload(b"09000000");
    first[5..17].copy_from_slice(b"KR4301F30001");
    let mut second = quote_payload(b"09000000");
    second[5..17].copy_from_slice(b"KR4301F30002");
    let mut third = quote_payload(b"09000000");
    third[5..17].copy_from_slice(b"KR4301F30003");
    let packets = vec![
        QuotePacket { pkt_time, data: second.as_slice().try_into().unwrap() },
        QuotePacket { pkt_time, data: first.as_slice().try_into().unwrap() },
        QuotePacket { pkt_time, data: third.as_slice().try_into().unwrap() },
    ];
    let out = ring_output(packets);
    let codes: Vec<&[u8]> = out.iter().map(|q| &q.data[5..17]).collect();
    assert_eq!(codes, vec![&b"KR4301F30002"[..], &b"KR4301F30001"[..], &b"KR4301F30003"[..]]);
    for q in &out {
        assert_eq!(q.accept_time, midnight + Timestamp::from_secs_and_nanos(9 * 3600, 0));
    }
}

#[test]
fn ring_quote_carries_the_times_of_the_last_packet_put_in_its_bucket() {
    // 512 centiseconds apart, both accept times land in the same bucket of the ring, and
    // both packets come within three seconds of the first accept time.
    let midnight = Timestamp::from_secs_and_nanos(1297814400 - 9 * 3600, 0);
    let nine = midnight + Timestamp::from_secs_and_nanos(9 * 3600, 0);
    let early = quote_payload(b"09000000");
    let mut late = quote_payload(b"09000512");
    late[5..17].copy_from_slice(b"KR4301F39999");
    let packets = vec![
        QuotePacket {
            pkt_time: nine + Timestamp::from_secs_and_nanos(1, 0),
            data: early.as_slice().try_into().unwrap(),
        },
        QuotePacket {
            pkt_time: nine + Timestamp::from_secs_and_nanos(1, 500_000_000),
            data: late.as_slice().try_into().unwrap(),
        },
    ];
    let out = ring_output(packets);
    assert_eq!(out.len(), 2);
    let late_accept = nine + Timestamp::from_secs_and_nanos(5, 120_000_000);
    // The first packet put in comes out first, with the accept time of the packet put in
    // after it.
    assert_eq!(&out[0].data[5..17], b"KR4301F32778");
    assert_eq!(out[0].accept_time, late_accept);
    assert_eq!(out[0].midnight_at_timezone, midnight);
    assert_eq!(&out[1].data[5..17], b"KR4301F39999");
    assert_eq!(out[1].accept_time, late_accept);
}

use kospi_parser::generate::{gen_frame, gen_quote};
use kospi_parser::pcap::{check_global_header, PcapHeaderError};
use kospi_parser::quote::QuotePacketList;
use kospi_parser::{
    build_quote_iterator, EthernetPacket, IpPacket, PcapIterator, QuoteIterator, QuotePacket,
    SortedQuoteIteratorBuckets, SortedQuoteIteratorHeap, Timestamp, UdpPacket,
    PROTOCOL_NUMBER_UDP, QUOTE_PACKET_SIZE,
};

fn global_header() -> Vec<u8> {
    let mut h = vec![0u8; 24];
    h[0..4].copy_from_slice(&0xa1b2c3d4u32.to_le_bytes());
    h[4..6].copy_from_slice(&2u16.to_le_bytes());
    h[6..8].copy_from_slice(&4u16.to_le_bytes());
    h[16..20].copy_from_slice(&65535u32.to_le_bytes());
    h[20..24].copy_from_slice(&1u32.to_le_bytes());
    h
}

fn push_record(capture: &mut Vec<u8>, ts_sec: u32, ts_usec: u32, frame: &[u8]) {
    capture.extend_from_slice(&ts_sec.to_le_bytes());
    capture.extend_from_slice(&ts_usec.to_le_bytes());
    capture.extend_from_slice(&(frame.len() as u32).to_le_bytes());
    capture.extend_from_slice(&(frame.len() as u32).to_le_bytes());
    capture.extend_from_slice(frame);
}

#[test]
fn global_header_errors() {
    let good = global_header();
    assert_eq!(check_global_header(&good), Ok(()));
    assert_eq!(check_global_header(&good[..23]), Err(PcapHeaderError::TooShort));
    let mut big_endian = good.clone();
    big_endian[0..4].copy_from_slice(&0xa1b2c3d4u32.to_be_bytes());
    assert_eq!(check_global_header(&big_endian), Err(PcapHeaderError::NotLittleEndianMicros));
    let mut raw_ip = good.clone();
    raw_ip[20..24].copy_from_slice(&101u32.to_le_bytes());
    assert_eq!(check_global_header(&raw_ip), Err(PcapHeaderError::NotEthernet));
}

#[test]
fn pcap_iterator_reads_records_and_stops_at_a_truncated_one() {
    let mut capture = global_header();
    push_record(&mut capture, 1297814400, 6356, &[1, 2, 3]);
    push_record(&mut capture, 1297814401, 999_999, &[]);
    // A record whose captured bytes run past the end of the file.
    capture.extend_from_slice(&1u32.to_le_bytes());
    capture.extend_from_slice(&2u32.to_le_bytes());
    capture.extend_from_slice(&10u32.to_le_bytes());
    capture.extend_from_slice(&10u32.to_le_bytes());
    capture.extend_from_slice(&[9, 9]);
    let mut it = PcapIterator::new(&capture);
    let p = it.next().unwrap();
    assert_eq!(p.pkt_time, Timestamp::from_secs_and_nanos(1297814400, 6_356_000));
    assert_eq!(p.data, &[1, 2, 3]);
    let p = it.next().unwrap();
    assert_eq!(p.pkt_time, Timestamp::from_secs_and_nanos(1297814401, 999_999_000));
    assert!(p.data.is_empty());
    assert!(it.next().is_none());
    assert!(it.next().is_none());
}

#[test]
fn ethernet_ip_udp_headers() {
    let frame = gen_frame(7, 9 * 3600 * 1_000_000_000);
    let ethernet = EthernetPacket::new(&frame).unwrap();
    assert_eq!(ethernet.ether_type, 0x0800);
    assert_eq!(ethernet.data.len(), frame.len() - 14);
    let ip = IpPacket::new(ethernet.ether_type, ethernet.data).unwrap();
    assert_eq!(ip.protocol, PROTOCOL_NUMBER_UDP);
    assert_eq!(ip.data.len(), frame.len() - 34);
    let udp = UdpPacket::new(ip.data).unwrap();
    assert_eq!(udp.dst_port, 15515);
    assert_eq!(udp.data.len(), QUOTE_PACKET_SIZE);

    assert!(EthernetPacket::new(&frame[..13]).is_none());
    assert!(IpPacket::new(0x0806, ethernet.data).is_none());
    assert!(IpPacket::new(0x0800, &ethernet.data[..9]).is_none());
    // An IPv4 header length field larger than the packet.
    assert!(IpPacket::new(0x0800, &[0x4F, 0, 0, 0, 0, 0, 0, 0, 0, 17]).is_none());
    assert!(UdpPacket::new(&ip.data[..7]).is_none());

    let mut ipv6 = vec![0u8; 40];
    ipv6[6] = 17;
    ipv6.extend_from_slice(&[1, 2, 3]);
    let ip = IpPacket::new(0x86DD, &ipv6).unwrap();
    assert_eq!(ip.protocol, 17);
    assert_eq!(ip.data, &[1, 2, 3]);
    assert!(IpPacket::new(0x86DD, &ipv6[..6]).is_none());
    assert!(IpPacket::new(0x86DD, &ipv6[..39]).is_none());
}

#[test]
fn gen_quote_writes_counter_and_accept_time() {
    let accept = (9 * 3600 + 1) * 1_000_000_000 + 230_000_000;
    let quote = gen_quote(42, accept);
    assert_eq!(&quote[..5], b"B6034");
    assert_eq!(&quote[5..17], b"000000000042");
    assert!(quote[17..206].iter().all(|&b| b == b'0'));
    assert_eq!(&quote[206..214], b"09000123");
    assert_eq!(quote[214], 0xFF);
}

fn generated_capture() -> Vec<u8> {
    let mut capture = global_header();
    let start = 1297814400u32 - 9 * 3600;
    // Accept times 09:00:00.00 + 1.5 s * i, each captured 2 s later, except two late ones.
    for i in 0..8u32 {
        let accept = 9 * 3600 * 1_000_000_000i64 + (i as i64) * 1_500_000_000;
        let frame = gen_frame(i as usize, accept);
        let delay = if i == 3 { 2_900_000 } else { 2_000_000 };
        let capture_micros = (accept / 1000) as u64 + delay;
        push_record(
            &mut capture,
            start + (capture_micros / 1_000_000) as u32,
            (capture_micros % 1_000_000) as u32,
            &frame,
        );
        // Frames that are not quotes: another UDP port, and a truncated payload.
        let mut other_port = frame.clone();
        other_port[36..38].copy_from_slice(&15517u16.to_be_bytes());
        push_record(&mut capture, start + (capture_micros / 1_000_000) as u32, 0, &other_port);
        push_record(&mut capture, start + (capture_micros / 1_000_000) as u32, 0, &frame[..100]);
    }
    capture
}

#[test]
fn quote_iterator_keeps_only_quotes() {
    let capture = generated_capture();
    let mut quotes = QuoteIterator::new(PcapIterator::new(&capture));
    let mut counters = Vec::new();
    while let Some(q) = quotes.next() {
        counters.push(std::str::from_utf8(&q.data[5..17]).unwrap().to_string());
    }
    let expected: Vec<String> = (0..8).map(|i| format!("{:012}", i)).collect();
    assert_eq!(counters, expected);

    // Numbered by record: each quote is followed by two records that are not quotes.
    let start = 1297814400i64 - 9 * 3600;
    let mut again = build_quote_iterator(PcapIterator::new(&capture));
    let mut seq_nums = Vec::new();
    while let Some(q) = again.next() {
        let i = seq_nums.len() as i64;
        assert_eq!(q.midnight_at_timezone, Timestamp::from_secs_and_nanos(start, 0));
        assert_eq!(
            q.accept_time,
            Timestamp::from_secs_and_nanos(start + 9 * 3600, i * 1_500_000_000)
        );
        assert_eq!(&q.data[5..17], format!("{:012}", i).as_bytes());
        seq_nums.push(q.seq_num);
    }
    assert_eq!(seq_nums, (0..8).map(|i| 3 * i).collect::<Vec<usize>>());
    assert!(again.next().is_none());
}

fn collect_heap(capture: &[u8]) -> Vec<kospi_parser::Quote<'_>> {
    let mut it = SortedQuoteIteratorHeap::with_capacity(QuoteIterator::new(PcapIterator::new(capture)), 16);
    let mut out = Vec::new();
    while let Some(q) = it.next() {
        out.push(q);
    }
    out
}

fn collect_buckets(capture: &[u8]) -> Vec<kospi_parser::Quote<'_>> {
    let mut it = SortedQuoteIteratorBuckets::with_capacity(QuoteIterator::new(PcapIterator::new(capture)), 4);
    let mut out = Vec::new();
    while let Some(q) = it.next() {
        out.push(q);
    }
    assert!(it.next().is_none());
    out
}

#[test]
fn sorted_iterators_agree_and_keep_every_quote() {
    let capture = generated_capture();
    let heap = collect_heap(&capture);
    let buckets = collect_buckets(&capture);
    assert_eq!(heap.len(), 8);
    assert_eq!(heap, buckets);
    for pair in heap.windows(2) {
        assert!(pair[0].accept_time <= pair[1].accept_time);
    }
    let counters: Vec<&[u8]> = heap.iter().map(|q| &q.data[5..17]).collect();
    assert_eq!(counters[0], b"000000000000");
    assert_eq!(counters[7], b"000000000007");
}

#[test]
fn sorted_iterators_reorder_out_of_order_packets() {
    let start = Timestamp::from_secs_and_nanos(1297814400, 0);
    let midnight = start.get_midnight_at_timezone(Timestamp::TIMEZONE_KST);
    let cent = 10_000_000i64;
    // (accept, capture) in centiseconds after `start`; captured out of accept order.
    let times = [(10, 200), (0, 210), (50, 220), (30, 230), (400, 600), (350, 610)];
    let mut payloads: Vec<Vec<u8>> = Vec::new();
    for (accept, _) in times.iter() {
        let mut data = vec![b'0'; QUOTE_PACKET_SIZE];
        data[..5].copy_from_slice(b"B6034");
        let t = start + Timestamp::from_secs_and_nanos(0, accept * cent);
        data[206..214].copy_from_slice(&t.as_hhmmssuu_string(midnight));
        payloads.push(data);
    }
    let packets: Vec<QuotePacket<'_>> = times
        .iter()
        .zip(payloads.iter())
        .map(|((_, captured), data)| {
            QuotePacket::new(start + Timestamp::from_secs_and_nanos(0, captured * cent), data).unwrap()
        })
        .collect();
    let mut heap = SortedQuoteIteratorHeap::with_capacity(QuotePacketList::new(packets.clone()), 4);
    let mut buckets = SortedQuoteIteratorBuckets::with_capacity(QuotePacketList::new(packets.clone()), 4);
    let mut from_heap = Vec::new();
    while let Some(q) = heap.next() {
        from_heap.push(q.accept_time);
    }
    let mut from_buckets = Vec::new();
    while let Some(q) = buckets.next() {
        from_buckets.push(q.accept_time);
    }
    let mut expected: Vec<Timestamp> =
        times.iter().map(|(a, _)| start + Timestamp::from_secs_and_nanos(0, a * cent)).collect();
    expected.sort();
    assert_eq!(from_heap, expected);
    assert_eq!(from_buckets, expected);
}

#[test]
fn sorted_iterators_on_nothing() {
    let mut heap = SortedQuoteIteratorHeap::with_capacity(QuotePacketList::new(Vec::new()), 4);
    assert!(heap.next().is_none());
    let mut buckets = SortedQuoteIteratorBuckets::with_capacity(QuotePacketList::new(Vec::new()), 4);
    assert!(buckets.next().is_none());
    assert!(buckets.next().is_none());
}

#[test]
fn bucket_order_needs_a_steady_stream() {
    // Each packet arrives in capture order at most three seconds after its accept time, but
    // capture stops for almost five seconds. The heap still lets the quotes out by accept
    // time; the bucket ring, which reads bucket indices modulo 512 centiseconds with the
    // half-range rule, lets the third quote out before the second.
    let start = Timestamp::from_secs_and_nanos(1297814400, 0);
    let midnight = start.get_midnight_at_timezone(Timestamp::TIMEZONE_KST);
    let cent = 10_000_000i64;
    let times = [(0, 290), (100, 310), (600, 800)];
    let mut payloads: Vec<Vec<u8>> = Vec::new();
    for (accept, _) in times.iter() {
        let mut data = vec![b'0'; QUOTE_PACKET_SIZE];
        data[..5].copy_from_slice(b"B6034");
        let t = start + Timestamp::from_secs_and_nanos(0, accept * cent);
        data[206..214].copy_from_slice(&t.as_hhmmssuu_string(midnight));
        payloads.push(data);
    }
    let packets: Vec<QuotePacket<'_>> = times
        .iter()
        .zip(payloads.iter())
        .map(|((_, captured), data)| {
            QuotePacket::new(start + Timestamp::from_secs_and_nanos(0, captured * cent), data).unwrap()
        })
        .collect();
    let mut heap = SortedQuoteIteratorHeap::with_capacity(QuotePacketList::new(packets.clone()), 4);
    let mut buckets = SortedQuoteIteratorBuckets::with_capacity(QuotePacketList::new(packets.clone()), 4);
    let mut from_heap = Vec::new();
    while let Some(q) = heap.next() {
        from_heap.push((q.accept_time - start).timestamp_centiseconds());
    }
    let mut from_buckets = Vec::new();
    while let Some(q) = buckets.next() {
        from_buckets.push((q.accept_time - start).timestamp_centiseconds());
    }
    assert_eq!(from_heap, vec![0, 100, 600]);
    assert_eq!(from_buckets, vec![0, 600, 100]);
}

fn steady_packets(start: Timestamp, times: &[(i64, i64)], payloads: &mut Vec<Vec<u8>>) {
    let midnight = start.get_midnight_at_timezone(Timestamp::TIMEZONE_KST);
    let cent = 10_000_000i64;
    for (accept, _) in times.iter() {
        let mut data = vec![b'0'; QUOTE_PACKET_SIZE];
        data[..5].copy_from_slice(b"B6034");
        let t = start + Timestamp::from_secs_and_nanos(0, accept * cent);
        data[206..214].copy_from_slice(&t.as_hhmmssuu_string(midnight));
        payloads.push(data);
    }
}

fn bucket_accepts(start: Timestamp, times: &[(i64, i64)], payloads: &[Vec<u8>]) -> (Vec<i64>, Vec<i64>) {
    let cent = 10_000_000i64;
    let packets: Vec<QuotePacket<'_>> = times
        .iter()
        .zip(payloads.iter())
        .map(|((_, captured), data)| {
            QuotePacket::new(start + Timestamp::from_secs_and_nanos(0, captured * cent), data).unwrap()
        })
        .collect();
    let mut heap = SortedQuoteIteratorHeap::with_capacity(QuotePacketList::new(packets.clone()), 4);
    let mut buckets = SortedQuoteIteratorBuckets::with_capacity(QuotePacketList::new(packets), 4);
    let mut from_heap = Vec::new();
    while let Some(q) = heap.next() {
        from_heap.push((q.accept_time - start).timestamp_centiseconds());
    }
    let mut from_buckets = Vec::new();
    while let Some(q) = buckets.next() {
        from_buckets.push((q.accept_time - start).timestamp_centiseconds());
    }
    (from_heap, from_buckets)
}

#[test]
fn buckets_sort_a_steady_stream() {
    // (accept, capture) in centiseconds: captured in order, each after its accept time and
    // at most three seconds later, and no two captures more than 2.56 s apart.
    let start = Timestamp::from_secs_and_nanos(1297814400, 0);
    let times = [(100, 150), (0, 200), (250, 300), (120, 380), (400, 420), (300, 600), (650, 700)];
    let mut payloads = Vec::new();
    steady_packets(start, &times, &mut payloads);
    let (from_heap, from_buckets) = bucket_accepts(start, &times, &payloads);
    assert_eq!(from_buckets, vec![0, 100, 120, 250, 300, 400, 650]);
    assert_eq!(from_heap, from_buckets);
}

#[test]
fn buckets_sort_a_long_steady_stream_around_the_ring() {
    // Ten ring turns of captures, one per centisecond, each up to three seconds late.
    let start = Timestamp::from_secs_and_nanos(1297814400, 0);
    let times: Vec<(i64, i64)> = (0..5120i64).map(|i| (300 + i - (i * 37) % 301, 300 + i)).collect();
    let mut payloads = Vec::new();
    steady_packets(start, &times, &mut payloads);
    let (from_heap, from_buckets) = bucket_accepts(start, &times, &payloads);
    let mut expected: Vec<i64> = times.iter().map(|(accept, _)| *accept).collect();
    expected.sort();
    assert_eq!(from_buckets, expected);
    assert_eq!(from_heap, expected);
}

#[test]
fn sorted_iterators_keep_capture_order_for_equal_accept_times() {
    // (accept, capture) in centiseconds; three quotes share accept time 100 and two share
    // 250, taken in out of accept order but in capture order.
    let start = Timestamp::from_secs_and_nanos(1297814400, 0);
    let times = [(100, 120), (250, 260), (100, 270), (50, 280), (250, 300), (100, 310), (400, 420)];
    let mut payloads = Vec::new();
    steady_packets(start, &times, &mut payloads);
    let cent = 10_000_000i64;
    let packets: Vec<QuotePacket<'_>> = times
        .iter()
        .zip(payloads.iter())
        .map(|((_, captured), data)| {
            QuotePacket::new(start + Timestamp::from_secs_and_nanos(0, captured * cent), data).unwrap()
        })
        .collect();
    let expected = vec![(50, 280), (100, 120), (100, 270), (100, 310), (250, 260), (250, 300), (400, 420)];
    let mut heap = SortedQuoteIteratorHeap::with_capacity(QuotePacketList::new(packets.clone()), 4);
    let mut buckets = SortedQuoteIteratorBuckets::with_capacity(QuotePacketList::new(packets), 4);
    let mut from_heap = Vec::new();
    while let Some(q) = heap.next() {
        from_heap.push((
            (q.accept_time - start).timestamp_centiseconds(),
            (q.pkt_time - start).timestamp_centiseconds(),
        ));
    }
    let mut from_buckets = Vec::new();
    while let Some(q) = buckets.next() {
        from_buckets.push((
            (q.accept_time - start).timestamp_centiseconds(),
            (q.pkt_time - start).timestamp_centiseconds(),
        ));
    }
    assert_eq!(from_heap, expected);
    assert_eq!(from_buckets, expected);
}

#[test]
fn bucket_order_needs_quotes_captured_after_acceptance() {
    // (accept, capture) in centiseconds. The second quote is captured 2.19 s before its accept
    // time: its bucket, 512 centiseconds around the ring, comes up before those of the later
    // quotes.
    let start = Timestamp::from_secs_and_nanos(1297814400, 0);
    let times = [(0, 300), (520, 301), (100, 320), (600, 620)];
    let mut payloads = Vec::new();
    steady_packets(start, &times, &mut payloads);
    let (from_heap, from_buckets) = bucket_accepts(start, &times, &payloads);
    assert_eq!(from_heap, vec![0, 100, 520, 600]);
    assert_eq!(from_buckets, vec![0, 520, 600, 100]);
}

#[test]
fn buckets_sort_quotes_captured_up_to_two_seconds_early() {
    // (accept, capture) in centiseconds: the second quote is captured 1.99 s before its
    // accept time, within what a steady stream allows.
    let start = Timestamp::from_secs_and_nanos(1297814400, 0);
    let times = [(0, 300), (500, 301), (100, 320), (600, 560)];
    let mut payloads = Vec::new();
    steady_packets(start, &times, &mut payloads);
    let (from_heap, from_buckets) = bucket_accepts(start, &times, &payloads);
    assert_eq!(from_buckets, vec![0, 100, 500, 600]);
    assert_eq!(from_heap, from_buckets);
}

#[test]
fn buckets_sort_pseudo_random_steady_streams() {
    // Each stream: captures 1 ns to 2.56 s apart, each quote accepted (on a whole
    // centisecond) from three seconds before its capture to 2.1 s after it.
    let start = Timestamp::from_secs_and_nanos(1297814400, 0);
    let midnight = start.get_midnight_at_timezone(Timestamp::TIMEZONE_KST);
    let cent = 10_000_000i64;
    let mut seed: u64 = 0x9E37_79B9_7F4A_7C15;
    let mut next = move |bound: u64| {
        seed ^= seed << 13;
        seed ^= seed >> 7;
        seed ^= seed << 17;
        seed % bound
    };
    for round in 0..40 {
        let n = 50 + (round * 37) % 400;
        let mut captured = 3_000_000_000i64;
        let mut times = Vec::new();
        for _ in 0..n {
            let gap_bound = if round % 2 == 0 { 256 * cent as u64 } else { cent as u64 };
            captured += 1 + next(gap_bound) as i64;
            let earliest_cent = (captured - 3_000_000_000 + cent - 1) / cent;
            let latest_cent = (captured + 210 * cent) / cent;
            let accept_cent = earliest_cent + next((latest_cent - earliest_cent + 1) as u64) as i64;
            times.push((accept_cent * cent, captured));
        }
        let mut payloads: Vec<Vec<u8>> = Vec::new();
        for (accept, _) in times.iter() {
            let mut data = vec![b'0'; QUOTE_PACKET_SIZE];
            data[..5].copy_from_slice(b"B6034");
            let t = start + Timestamp::from_secs_and_nanos(0, *accept);
            data[206..214].copy_from_slice(&t.as_hhmmssuu_string(midnight));
            payloads.push(data);
        }
        let packets: Vec<QuotePacket<'_>> = times
            .iter()
            .zip(payloads.iter())
            .map(|((_, captured), data)| {
                QuotePacket::new(start + Timestamp::from_secs_and_nanos(0, *captured), data).unwrap()
            })
            .collect();
        let mut heap = SortedQuoteIteratorHeap::with_capacity(QuotePacketList::new(packets.clone()), 4);
        let mut buckets = SortedQuoteIteratorBuckets::with_capacity(QuotePacketList::new(packets), 4);
        let mut from_heap = Vec::new();
        while let Some(q) = heap.next() {
            from_heap.push((q.accept_time, q.pkt_time));
        }
        let mut from_buckets = Vec::new();
        while let Some(q) = buckets.next() {
            from_buckets.push((q.accept_time, q.pkt_time));
        }
        let mut expected = from_buckets.clone();
        expected.sort();
        assert_eq!(from_buckets.len(), n as usize);
        assert_eq!(from_buckets, expected);
        assert_eq!(from_heap, expected);
    }
}

#[test]
fn sorted_iterators_sort_captures_before_the_epoch() {
    // The same kind of stream as above, captured in 1969.
    let start = Timestamp::from_secs_and_nanos(-86400 * 3 + 9 * 3600, 0);
    let times = [(100, 150), (0, 200), (250, 300), (120, 380), (400, 420), (300, 600), (650, 700)];
    let mut payloads = Vec::new();
    steady_packets(start, &times, &mut payloads);
    let (from_heap, from_buckets) = bucket_accepts(start, &times, &payloads);
    assert_eq!(from_buckets, vec![0, 100, 120, 250, 300, 400, 650]);
    assert_eq!(from_heap, from_buckets);
}

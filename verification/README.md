# kospi_parser

A verified parser for the KOSPI 200 market data feed as captured in PCAP files.

`src/` is the library, verified with Verus:

- `pcap` — the PCAP global header check and the record iterator;
- `ethernet`, `ip`, `udp` — the headers down to the UDP payload;
- `quote` — quote packets (`B6034`), their accept time, the quote iterator and the
  printed line (`quote/line.rs`), and two reorderings by accept time: a priority queue
  (`quote/heap.rs`) and a ring of centisecond buckets (`quote/bucket.rs`), with the
  streams on which the ring keeps order (`quote/steady.rs`). On packets that arrive in
  capture order at most three seconds late, each quote that either of them lets out comes
  no later than any quote not yet let out, by accept time and then capture time, and
  carries its own accept time; the ring asks in addition that quotes are captured at most
  2.1 s before they are accepted and that the point three seconds before each capture
  runs at most 2.56 s past the later of that of the capture before and the earliest accept
  time so far. Each bucket of the ring lets its packets out in the order they were put in,
  and the quote it lets out carries the times of the packet most recently put in it
  (`quote/ring.rs` says which bucket a packet goes to). Over whole runs of calls
  (`quote/run.rs`), both let the quotes out sorted and account for every packet, and on
  packets of distinct accept and capture times they let out the same sequence;
- `sequenced` — quote packets numbered by the place of their record in the capture, with
  their accept time worked out as they are read, and their compact line;
- `time` — nanosecond timestamps and the `HHMMSSuu` clock text;
- `delay` — a queue that holds items back until an arrival comes three seconds after them
  and lets them out in order of time (stable among equal times);
- `generate` — synthetic quote frames for benchmarks.

`app/` is the command-line program: `kospi_parser [-r] <capture.pcap>` prints the quotes
(in accept-time order with `-r`), `kospi_parser compact [-r] <capture.pcap>` prints them as
compact lines, and `kospi_parser generate <N>` writes `benchmark-N.pcap` with N synthetic
quotes. It maps the file into memory, draws the simulated network delays and writes the
capture; everything else is the library's.

# netstack

A small user-space network stack over a packet-capture device: Ethernet frames with a
CRC-32 trailer, ARP with an expiring address cache, IPv4 fragmentation and reassembly,
ICMP echo replies, UDP sockets, and a chunked file transfer over UDP.

The protocol logic is a library verified with Verus (`src/`): every function carries a
contract over a mathematical model of its data, and the properties that tie functions
together are proof functions named `law_*`, for example

- a built frame passes the receive checks (`frame::law_built_frame_accepted`);
- the packets built from a payload parse back to its fragments, whose payloads join to
  the payload, and pushing them into the reassembler in any order releases exactly the
  payload at the last push (`ipv4::law_built_packets_parse`,
  `reassembly::law_reassembles_in_any_order`);
- a UDP segment sent through IPv4 is accepted by the receiving side and carries the
  payload from the sender's address (`udp::law_sent_datagram_received`);
- an ARP cache lookup right after an insert answers the inserted address
  (`arp::law_lookup_after_insert`);
- a file cut into chunk datagrams is rebuilt by the receiver, whatever the order in which
  they arrive and however often (`transfer::law_transfer_any_order`);
- a queue gives frames back in the order they were pushed (`queue::law_queue_fifo`).

Time, the capture device, the file system, threads and the status page live in `app/`,
which drives the library: blocking waits on the queues and sockets, the address
resolution and capture loops, and the HTTP server.

Layout:

- `src/bytes.rs`, `src/checksum.rs`, `src/text.rs`: byte, checksum and text codecs.
- `src/frame.rs`, `src/arp.rs`, `src/datalink.rs`, `src/queue.rs`: the link layer.
- `src/ipv4.rs`, `src/reassembly.rs`, `src/icmp.rs`, `src/udp.rs`: the network and transport layers.
- `src/transfer.rs`, `src/cli.rs`, `src/config.rs`, `src/telemetry.rs`: the programs' logic.
- `src/link.rs`: the plain Ethernet tool (a file cut into frames of at most 1500 payload bytes).
- `src/clock.rs`: the monotonic clock behind the expiring caches.

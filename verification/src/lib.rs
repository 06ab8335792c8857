//! A small Ethernet / ARP / IPv4 / ICMP / UDP protocol stack: the frame codecs,
//! checksums, fragmentation and reassembly, address resolution and socket table.
pub mod arp;
pub mod bytes;
pub mod checksum;
pub mod frame;
pub mod icmp;
pub mod cli;
pub mod clock;
pub mod config;
pub mod datalink;
pub mod ipv4;
pub mod link;
pub mod queue;
pub mod reassembly;
pub mod telemetry;
pub mod text;
pub mod transfer;
pub mod udp;

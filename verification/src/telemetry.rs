//! Live counters of a running stack, shown by the status page: interface, packet counters,
//! queue depths and drops, and the progress of a file transfer.
use vstd::prelude::*;

verus! {

/// The interface the stack runs on.
#[derive(Debug, Clone)]
pub struct IInfo {
    pub name: String,
    pub ip: String,
    pub mac: String,
}

/// Packet counters.
#[derive(Debug, Clone, Copy)]
pub struct Counters {
    pub rx_packets: u64,
    pub tx_packets: u64,
    pub crc_errors: u64,
    pub arp_miss: u64,
    pub udp_recv: u64,
    pub udp_send: u64,
}

/// Depth and drops of one queue.
#[derive(Debug, Clone, Copy)]
pub struct QueueInfo {
    pub depth: u64,
    pub drops: u64,
}

/// Both queues.
#[derive(Debug, Clone, Copy)]
pub struct Queues {
    pub send: QueueInfo,
    pub recv: QueueInfo,
}

/// Bytes per second each way (not measured: always zero).
#[derive(Debug, Clone, Copy)]
pub struct Throughput {
    pub rx_bps: u64,
    pub tx_bps: u64,
}

/// One row of the ARP table on the status page.
#[derive(Debug, Clone)]
pub struct ArpEntry {
    pub ip: String,
    pub mac: String,
    pub state: String,
    pub ttl: String,
}

/// One row of the event log on the status page.
#[derive(Debug, Clone)]
pub struct EventRow {
    pub ts: String,
    pub kind: String,
    pub text: String,
}

/// The progress shown for a transfer: nothing yet, a fraction of the chunks, or done.
#[derive(Debug, Clone, Copy, PartialEq, Eq)]
pub enum Progress {
    Zero,
    Fraction { done: u64, total: u64 },
    Full,
}

/// The file transfer under way.
#[derive(Debug, Clone)]
pub struct Transfer {
    pub role: String,
    pub file: String,
    pub progress: Progress,
    pub chunks_done: u64,
    pub chunks_total: u64,
}

/// The counters of a running stack.
#[derive(Debug, Clone)]
pub struct Telemetry {
    pub iface: IInfo,
    pub counters: Counters,
    pub queues: Queues,
    pub transfer: Option<Transfer>,
}

/// A 64-bit counter after adding `n`, wrapping around as atomic counters do.
pub open spec fn bumped(x: u64, n: u64) -> u64 {
    ((x as int + n as int) % 0x1_0000_0000_0000_0000) as u64
}

fn bump(x: u64, n: u64) -> (r: u64)
    ensures
        r == bumped(x, n),
{
    x.wrapping_add(n)
}

impl Telemetry {
    /// Everything empty or zero.
    pub fn new() -> (t: Self)
        ensures
            t.iface.name@.len() == 0 && t.iface.ip@.len() == 0 && t.iface.mac@.len() == 0,
            t.counters == (Counters {
                rx_packets: 0,
                tx_packets: 0,
                crc_errors: 0,
                arp_miss: 0,
                udp_recv: 0,
                udp_send: 0,
            }),
            t.queues == (Queues {
                send: QueueInfo { depth: 0, drops: 0 },
                recv: QueueInfo { depth: 0, drops: 0 },
            }),
            t.transfer is None,
    {
        Telemetry {
            iface: IInfo { name: String::new(), ip: String::new(), mac: String::new() },
            counters: Counters {
                rx_packets: 0,
                tx_packets: 0,
                crc_errors: 0,
                arp_miss: 0,
                udp_recv: 0,
                udp_send: 0,
            },
            queues: Queues {
                send: QueueInfo { depth: 0, drops: 0 },
                recv: QueueInfo { depth: 0, drops: 0 },
            },
            transfer: None,
        }
    }

    /// Records the interface name, address and MAC address text.
    pub fn set_iface(&mut self, name: &str, ip: &str, mac: &str)
        ensures
            final(self).iface.name@ == name@,
            final(self).iface.ip@ == ip@,
            final(self).iface.mac@ == mac@,
            final(self).counters == old(self).counters,
            final(self).queues == old(self).queues,
            final(self).transfer == old(self).transfer,
    {
        self.iface = IInfo { name: name.to_owned(), ip: ip.to_owned(), mac: mac.to_owned() };
    }

    /// Counts received packets.
    pub fn inc_rx(&mut self, n: u64)
        ensures
            final(self).counters == (Counters {
                rx_packets: bumped(old(self).counters.rx_packets, n),
                ..old(self).counters
            }),
            final(self).iface == old(self).iface,
            final(self).queues == old(self).queues,
            final(self).transfer == old(self).transfer,
    {
        self.counters.rx_packets = bump(self.counters.rx_packets, n);
    }

    /// Counts sent packets.
    pub fn inc_tx(&mut self, n: u64)
        ensures
            final(self).counters == (Counters {
                tx_packets: bumped(old(self).counters.tx_packets, n),
                ..old(self).counters
            }),
            final(self).iface == old(self).iface,
            final(self).queues == old(self).queues,
            final(self).transfer == old(self).transfer,
    {
        self.counters.tx_packets = bump(self.counters.tx_packets, n);
    }

    /// Counts received UDP datagrams.
    pub fn inc_udp_recv(&mut self, n: u64)
        ensures
            final(self).counters == (Counters {
                udp_recv: bumped(old(self).counters.udp_recv, n),
                ..old(self).counters
            }),
            final(self).iface == old(self).iface,
            final(self).queues == old(self).queues,
            final(self).transfer == old(self).transfer,
    {
        self.counters.udp_recv = bump(self.counters.udp_recv, n);
    }

    /// Counts sent UDP datagrams.
    pub fn inc_udp_send(&mut self, n: u64)
        ensures
            final(self).counters == (Counters {
                udp_send: bumped(old(self).counters.udp_send, n),
                ..old(self).counters
            }),
            final(self).iface == old(self).iface,
            final(self).queues == old(self).queues,
            final(self).transfer == old(self).transfer,
    {
        self.counters.udp_send = bump(self.counters.udp_send, n);
    }

    /// Records the send queue's depth.
    pub fn set_send_depth(&mut self, depth: u64)
        ensures
            final(self).queues == (Queues {
                send: QueueInfo { depth, ..old(self).queues.send },
                ..old(self).queues
            }),
            final(self).iface == old(self).iface,
            final(self).counters == old(self).counters,
            final(self).transfer == old(self).transfer,
    {
        self.queues.send.depth = depth;
    }

    /// Records the receive queue's depth.
    pub fn set_recv_depth(&mut self, depth: u64)
        ensures
            final(self).queues == (Queues {
                recv: QueueInfo { depth, ..old(self).queues.recv },
                ..old(self).queues
            }),
            final(self).iface == old(self).iface,
            final(self).counters == old(self).counters,
            final(self).transfer == old(self).transfer,
    {
        self.queues.recv.depth = depth;
    }

    /// Counts frames dropped at the send queue.
    pub fn inc_send_drops(&mut self, n: u64)
        ensures
            final(self).queues == (Queues {
                send: QueueInfo {
                    drops: bumped(old(self).queues.send.drops, n),
                    ..old(self).queues.send
                },
                ..old(self).queues
            }),
            final(self).iface == old(self).iface,
            final(self).counters == old(self).counters,
            final(self).transfer == old(self).transfer,
    {
        self.queues.send.drops = bump(self.queues.send.drops, n);
    }

    /// Counts frames dropped at the receive queue.
    pub fn inc_recv_drops(&mut self, n: u64)
        ensures
            final(self).queues == (Queues {
                recv: QueueInfo {
                    drops: bumped(old(self).queues.recv.drops, n),
                    ..old(self).queues.recv
                },
                ..old(self).queues
            }),
            final(self).iface == old(self).iface,
            final(self).counters == old(self).counters,
            final(self).transfer == old(self).transfer,
    {
        self.queues.recv.drops = bump(self.queues.recv.drops, n);
    }

    /// Starts showing a transfer of `chunks_total` chunks, none done.
    pub fn start_transfer(&mut self, role: &str, file: &str, chunks_total: u64)
        ensures
            final(self).transfer matches Some(t) && t.role@ == role@ && t.file@ == file@
                && t.progress == Progress::Zero && t.chunks_done == 0 && t.chunks_total
                == chunks_total,
            final(self).iface == old(self).iface,
            final(self).counters == old(self).counters,
            final(self).queues == old(self).queues,
    {
        self.transfer = Some(
            Transfer {
                role: role.to_owned(),
                file: file.to_owned(),
                progress: Progress::Zero,
                chunks_done: 0,
                chunks_total,
            },
        );
    }

    /// Records how many chunks are done; the progress becomes their fraction when the total
    /// is not zero. Without a transfer nothing changes.
    pub fn update_transfer_done(&mut self, chunks_done: u64)
        ensures
            final(self).iface == old(self).iface,
            final(self).counters == old(self).counters,
            final(self).queues == old(self).queues,
            old(self).transfer is None ==> final(self).transfer is None,
            old(self).transfer matches Some(t) ==> (final(self).transfer matches Some(u) && u.role
                == t.role && u.file == t.file && u.chunks_total == t.chunks_total && u.chunks_done
                == chunks_done && u.progress == if t.chunks_total > 0 {
                Progress::Fraction { done: chunks_done, total: t.chunks_total }
            } else {
                t.progress
            }),
    {
        match self.transfer.take() {
            Some(t) => {
                let mut t = t;
                t.chunks_done = chunks_done;
                if t.chunks_total > 0 {
                    t.progress = Progress::Fraction { done: chunks_done, total: t.chunks_total };
                }
                self.transfer = Some(t);
            },
            None => {},
        }
    }

    /// Marks the transfer done: all chunks, full progress. Without a transfer nothing changes.
    pub fn finish_transfer(&mut self)
        ensures
            final(self).iface == old(self).iface,
            final(self).counters == old(self).counters,
            final(self).queues == old(self).queues,
            old(self).transfer is None ==> final(self).transfer is None,
            old(self).transfer matches Some(t) ==> (final(self).transfer matches Some(u) && u.role
                == t.role && u.file == t.file && u.chunks_total == t.chunks_total && u.chunks_done
                == t.chunks_total && u.progress == Progress::Full),
    {
        match self.transfer.take() {
            Some(t) => {
                let mut t = t;
                t.chunks_done = t.chunks_total;
                t.progress = Progress::Full;
                self.transfer = Some(t);
            },
            None => {},
        }
    }
}

} // verus!

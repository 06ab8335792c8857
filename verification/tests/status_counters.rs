use netstack::telemetry::{Progress, Telemetry};
use netstack::clock::saturate_nanos;

#[test]
fn counters_and_queues() {
    let mut t = Telemetry::new();
    t.set_iface("eth0", "10.0.0.1", "02:00:00:00:00:01");
    t.inc_rx(3);
    t.inc_rx(2);
    t.inc_tx(1);
    t.inc_udp_recv(4);
    t.inc_udp_send(u64::MAX);
    t.inc_udp_send(2);
    t.set_send_depth(7);
    t.set_recv_depth(8);
    t.inc_send_drops(1);
    t.inc_recv_drops(2);
    assert_eq!(t.iface.name, "eth0");
    assert_eq!(t.counters.rx_packets, 5);
    assert_eq!(t.counters.tx_packets, 1);
    assert_eq!(t.counters.udp_recv, 4);
    assert_eq!(t.counters.udp_send, 1);
    assert_eq!((t.queues.send.depth, t.queues.send.drops), (7, 1));
    assert_eq!((t.queues.recv.depth, t.queues.recv.drops), (8, 2));
}

#[test]
fn transfer_progress() {
    let mut t = Telemetry::new();
    t.update_transfer_done(3);
    assert!(t.transfer.is_none());
    t.start_transfer("send", "a.bin", 4);
    t.update_transfer_done(1);
    let tr = t.transfer.clone().unwrap();
    assert_eq!(tr.progress, Progress::Fraction { done: 1, total: 4 });
    assert_eq!(tr.role, "send");
    t.finish_transfer();
    let tr = t.transfer.clone().unwrap();
    assert_eq!((tr.chunks_done, tr.progress), (4, Progress::Full));
    t.start_transfer("recv", "b.bin", 0);
    t.update_transfer_done(5);
    assert_eq!(t.transfer.clone().unwrap().progress, Progress::Zero);
}

#[test]
fn nanosecond_counts_saturate_at_u64_max() {
    assert_eq!(saturate_nanos(0), 0);
    assert_eq!(saturate_nanos(30_000_000_000), 30_000_000_000);
    assert_eq!(saturate_nanos(u64::MAX as u128), u64::MAX);
    assert_eq!(saturate_nanos(u64::MAX as u128 + 1), u64::MAX);
    assert_eq!(saturate_nanos(u128::MAX), u64::MAX);
}

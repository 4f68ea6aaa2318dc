use ip_sniffer::aggregate::{sort_ports, Collector};

#[test]
fn interleaved_reports_come_out_ascending() {
    let mut c = Collector::new();
    for p in [8080u16, 22, 443, 1, 65535, 80] {
        c.receive(p);
    }
    assert_eq!(c.finish(), vec![1, 22, 80, 443, 8080, 65535]);
}

#[test]
fn nothing_received_gives_empty_result() {
    let c = Collector::new();
    assert_eq!(c.finish(), Vec::<u16>::new());
}

#[test]
fn sort_keeps_repeated_ports() {
    assert_eq!(sort_ports(&vec![5, 3, 5, 1]), vec![1, 3, 5, 5]);
    assert_eq!(sort_ports(&vec![]), Vec::<u16>::new());
    assert_eq!(sort_ports(&vec![7]), vec![7]);
}

#[test]
fn arrival_order_does_not_change_result() {
    let mut first = Collector::new();
    for p in [3u16, 9000, 21, 443] {
        first.receive(p);
    }
    let mut second = Collector::new();
    for p in [443u16, 21, 3, 9000] {
        second.receive(p);
    }
    let a = first.finish();
    assert_eq!(a, second.finish());
    assert_eq!(a, vec![3, 21, 443, 9000]);
}

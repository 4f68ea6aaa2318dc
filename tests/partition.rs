use ip_sniffer::partition::{assigned_ports, Worker, MAX_PORT};

fn check_partition(count: u16) {
    let mut seen = vec![0u32; MAX_PORT as usize + 1];
    for index in 0..count {
        let ports = assigned_ports(index, count);
        for w in ports.windows(2) {
            assert!(w[0] < w[1]);
        }
        for p in ports {
            assert!(p >= 1);
            seen[p as usize] += 1;
        }
    }
    assert_eq!(seen[0], 0);
    for p in 1..=MAX_PORT as usize {
        assert_eq!(seen[p], 1, "port {} with {} workers", p, count);
    }
}

#[test]
fn partition_one_worker() {
    check_partition(1);
}

#[test]
fn partition_two_workers() {
    check_partition(2);
}

#[test]
fn partition_three_workers() {
    check_partition(3);
}

#[test]
fn partition_four_workers() {
    check_partition(4);
}

#[test]
fn partition_seven_workers() {
    check_partition(7);
}

#[test]
fn partition_all_workers() {
    check_partition(MAX_PORT);
}

#[test]
fn single_worker_visits_every_port_in_order() {
    let ports = assigned_ports(0, 1);
    let expected: Vec<u16> = (1..=MAX_PORT).collect();
    assert_eq!(ports, expected);
}

#[test]
fn widest_pool_first_worker_visits_port_one_only() {
    assert_eq!(assigned_ports(0, MAX_PORT), vec![1]);
    assert_eq!(assigned_ports(MAX_PORT - 1, MAX_PORT), vec![MAX_PORT]);
}

#[test]
fn stride_and_last_port() {
    let ports = assigned_ports(2, 4);
    assert_eq!(&ports[..3], &[3, 7, 11]);
    assert_eq!(*ports.last().unwrap(), 65535);
    assert_eq!(ports.len(), 16384);
    let ports = assigned_ports(0, 4);
    assert_eq!(*ports.last().unwrap(), 65533);
}

#[test]
fn worker_reports_only_connected_ports() {
    let mut w = Worker::new(1, 3);
    assert_eq!(w.current(), Some(2));
    assert_eq!(w.record(false), None);
    assert_eq!(w.current(), Some(5));
    assert_eq!(w.record(true), Some(5));
    assert_eq!(w.current(), Some(8));
}

#[test]
fn worker_finishes_at_the_top_port() {
    let mut w = Worker::new(0, MAX_PORT);
    assert_eq!(w.current(), Some(1));
    assert_eq!(w.record(true), Some(1));
    assert_eq!(w.current(), None);
    assert_eq!(w.record(true), None);
}

#[test]
fn stopped_worker_probes_nothing_more() {
    let mut w = Worker::new(0, 4);
    w.stop();
    assert_eq!(w.current(), None);
    assert_eq!(w.record(true), None);
}

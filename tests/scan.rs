use ip_sniffer::partition::MAX_PORT;
use ip_sniffer::scan::{accepts_at, scan_with};

fn listening(ports: &[u16]) -> Vec<bool> {
    let mut accepts = vec![false; MAX_PORT as usize + 1];
    for &p in ports {
        accepts[p as usize] = true;
    }
    accepts
}

#[test]
fn loopback_with_two_listeners() {
    let accepts = listening(&[8080, 22]);
    assert_eq!(scan_with(4, &accepts), vec![22, 8080]);
}

#[test]
fn nothing_listening_gives_empty_result() {
    let accepts = listening(&[]);
    assert_eq!(scan_with(4, &accepts), Vec::<u16>::new());
}

#[test]
fn fifty_workers_nothing_listening() {
    let accepts = listening(&[]);
    assert_eq!(scan_with(50, &accepts), Vec::<u16>::new());
}

#[test]
fn repeated_scan_gives_same_result() {
    let accepts = listening(&[1, 443, 3000, 65535]);
    let first = scan_with(7, &accepts);
    let second = scan_with(7, &accepts);
    assert_eq!(first, second);
    assert_eq!(first, vec![1, 443, 3000, 65535]);
    assert_eq!(scan_with(1, &accepts), first);
}

#[test]
fn no_workers_probe_nothing() {
    let accepts = listening(&[22]);
    assert_eq!(scan_with(0, &accepts), Vec::<u16>::new());
}

#[test]
fn port_zero_is_never_reported() {
    let mut accepts = listening(&[80]);
    accepts[0] = true;
    assert_eq!(scan_with(3, &accepts), vec![80]);
}

#[test]
fn ports_past_the_table_refuse() {
    let accepts = vec![false, false, true];
    assert!(accepts_at(&accepts, 2));
    assert!(!accepts_at(&accepts, 1));
    assert!(!accepts_at(&accepts, 3));
    assert_eq!(scan_with(2, &accepts), vec![2]);
}

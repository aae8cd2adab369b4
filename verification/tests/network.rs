use postflight::events::{NetworkEvent, Protocol};
use postflight::network::{
    can_parse_address, can_parse_output, is_loopback, lsof_arguments, parse_remote_address,
    ConnectionKey, NetworkObserver,
};
use postflight::time::Timestamp;

#[test]
fn test_parse_remote_address() {
    let result = parse_remote_address("192.168.1.1:8080->93.184.216.34:443");
    assert_eq!(result, Some(("93.184.216.34".to_string(), 443)));

    let result = parse_remote_address("localhost:5000->127.0.0.1:3000");
    assert_eq!(result, None);

    let result = parse_remote_address("*:8080");
    assert_eq!(result, None);
}

#[test]
fn test_parse_ipv6() {
    let result = parse_remote_address("*:443->[2001:db8::1]:8080");
    assert_eq!(result, Some(("2001:db8::1".to_string(), 8080)));
}

#[test]
fn test_parse_ipv6_loopback_filtered() {
    let result = parse_remote_address("*:5000->[::1]:3000");
    assert_eq!(result, None);
}

#[test]
fn test_parse_ipv4_mapped_loopback_filtered() {
    let result = parse_remote_address("*:5000->::ffff:127.0.0.1:8080");
    assert_eq!(result, None);

    let result = parse_remote_address("*:5000->127.0.0.2:8080");
    assert_eq!(result, None);

    let result = parse_remote_address("*:5000->10.0.0.1:8080");
    assert_eq!(result, Some(("10.0.0.1".to_string(), 8080)));
}

fn key_of(event: &NetworkEvent) -> ConnectionKey {
    ConnectionKey {
        pid: event.pid,
        remote_host: event.remote_host.clone(),
        remote_port: event.remote_port,
        protocol: event.protocol,
    }
}

#[test]
fn test_deduplication_suppresses_repeated_connections() {
    let mut observer = NetworkObserver::new(1, 100);

    let event_a = NetworkEvent {
        pid: 100,
        remote_host: "example.com".to_string(),
        remote_port: 443,
        protocol: Protocol::Tcp,
        timestamp: Timestamp::now(),
    };
    let event_b = NetworkEvent {
        pid: 100,
        remote_host: "other.io".to_string(),
        remote_port: 80,
        protocol: Protocol::Tcp,
        timestamp: Timestamp::now(),
    };

    let key_a = key_of(&event_a);
    let key_b = key_of(&event_b);

    assert!(observer.seen_connections.insert(key_a.clone()));
    assert!(observer.seen_connections.insert(key_b.clone()));

    assert!(!observer.seen_connections.insert(key_a));
    assert!(!observer.seen_connections.insert(key_b));
}

fn unseen(observer: &mut NetworkObserver, connections: Vec<NetworkEvent>) -> Vec<NetworkEvent> {
    let mut new_events = Vec::new();
    for conn in connections {
        let key = key_of(&conn);
        if !observer.seen_connections.contains(&key) {
            observer.seen_connections.insert(key);
            new_events.push(conn);
        }
    }
    new_events
}

const TWO_CURLS: &str = "\
COMMAND   PID USER   FD   TYPE  DEVICE SIZE/OFF NODE NAME
curl      100 user   3u   IPv4  12345      0t0  TCP  192.168.1.1:55000->93.184.216.34:443
curl      100 user   4u   IPv4  12346      0t0  TCP  192.168.1.1:55001->10.0.0.1:8080";

const CURL_AND_WGET: &str = "\
COMMAND   PID USER   FD   TYPE  DEVICE SIZE/OFF NODE NAME
curl      100 user   3u   IPv4  12345      0t0  TCP  192.168.1.1:55000->93.184.216.34:443
wget      101 user   5u   IPv4  12347      0t0  UDP  192.168.1.1:55002->8.8.8.8:53";

#[test]
fn test_deduplication_via_poll_with_lsof_output() {
    let mut observer = NetworkObserver::new(1, 100);

    let connections = observer.parse_lsof_output(TWO_CURLS);
    assert_eq!(connections.len(), 2);

    let new_events = unseen(&mut observer, connections);
    assert_eq!(new_events.len(), 2);
    assert_eq!(new_events[0].remote_host, "93.184.216.34");
    assert_eq!(new_events[1].remote_host, "10.0.0.1");

    let connections = observer.parse_lsof_output(TWO_CURLS);
    assert_eq!(connections.len(), 2);

    let new_events = unseen(&mut observer, connections);
    assert_eq!(new_events.len(), 0);

    let connections = observer.parse_lsof_output(CURL_AND_WGET);
    assert_eq!(connections.len(), 2);

    let new_events = unseen(&mut observer, connections);
    assert_eq!(new_events.len(), 1);
    assert_eq!(new_events[0].remote_host, "8.8.8.8");
    assert_eq!(new_events[0].remote_port, 53);
    assert_eq!(new_events[0].protocol, Protocol::Udp);
}

#[test]
fn test_parse_lsof_handles_established_state_suffix() {
    let observer = NetworkObserver::new(1, 100);

    let lsof_output = "\
COMMAND   PID USER   FD   TYPE  DEVICE SIZE/OFF NODE NAME
ssh       200 user   3u   IPv4  99999      0t0  TCP  10.0.0.5:22->54.231.10.1:443 (ESTABLISHED)
curl      201 user   4u   IPv4  99998      0t0  TCP  10.0.0.5:33->1.2.3.4:8080 (CLOSE_WAIT)";

    let events = observer.parse_lsof_output(lsof_output);
    assert_eq!(events.len(), 2);
    assert_eq!(events[0].remote_host, "54.231.10.1");
    assert_eq!(events[0].remote_port, 443);
    assert_eq!(events[1].remote_host, "1.2.3.4");
    assert_eq!(events[1].remote_port, 8080);
}

#[test]
fn polling_reports_each_connection_once() {
    let mut observer = NetworkObserver::new(7, 250);
    assert_eq!(observer.root_pid, 7);
    assert_eq!(observer.poll_interval().subsec_nanos(), 250_000_000);
    assert_eq!(observer.poll(TWO_CURLS).len(), 2);
    assert_eq!(observer.poll(TWO_CURLS).len(), 0);
    let fresh = observer.poll(CURL_AND_WGET);
    assert_eq!(fresh.len(), 1);
    assert_eq!(fresh[0].pid, 101);
    assert_eq!(fresh[0].remote_host, "8.8.8.8");
}

#[test]
fn a_connection_listed_twice_is_reported_once() {
    let mut observer = NetworkObserver::new(1, 100);
    let line = "curl 100 user 3u IPv4 1 0t0 TCP 10.0.0.2:1->10.0.0.1:80";
    let output = format!("HEADING\n{line}\n{line}\n");
    assert_eq!(observer.parse_lsof_output(&output).len(), 2);
    assert_eq!(observer.poll(&output).len(), 1);
}

#[test]
fn rows_that_are_no_connections_are_passed_over() {
    let observer = NetworkObserver::new(1, 100);
    let output = "\
HEADING
too few columns
curl abc user 3u IPv4 1 0t0 TCP 10.0.0.2:1->10.0.0.1:80
curl 100 user 3u IPv4 1 0t0 RAW 10.0.0.2:1->10.0.0.1:80
curl 100 user 3u IPv4 1 0t0 TCP *:80
curl 100 user 3u IPv4 1 0t0 TCP 10.0.0.2:1->127.0.0.1:80
curl 100 user 3u IPv4 1 0t0 tcp 10.0.0.2:1->10.0.0.1:80
curl 100 user 3u IPv4 1 0t0 uDp 10.0.0.2:1->10.0.0.1:53";
    let events = observer.parse_lsof_output(output);
    assert_eq!(events.len(), 2);
    assert_eq!(events[0].protocol, Protocol::Tcp);
    assert_eq!(events[1].protocol, Protocol::Udp);
    assert_eq!(observer.parse_lsof_output("").len(), 0);
    assert_eq!(observer.parse_lsof_output("HEADING").len(), 0);
}

#[test]
fn addresses_in_odd_forms() {
    assert_eq!(parse_remote_address("a->10.0.0.1:443(ESTABLISHED)"), Some(("10.0.0.1".into(), 443)));
    assert_eq!(parse_remote_address("a->10.0.0.1:443)"), Some(("10.0.0.1".into(), 443)));
    assert_eq!(parse_remote_address("a->b->10.0.0.1:1"), Some(("b->10.0.0.1".into(), 1)));
    assert_eq!(parse_remote_address("a-> 10.0.0.1:1 x"), Some(("10.0.0.1".into(), 1)));
    assert_eq!(parse_remote_address("a->host"), None);
    assert_eq!(parse_remote_address("a->"), None);
    assert_eq!(parse_remote_address("a->host:70000"), None);
    assert_eq!(parse_remote_address("a->host:+80"), Some(("host".into(), 80)));
    assert_eq!(parse_remote_address("a->:80"), Some(("".into(), 80)));
    assert_eq!(parse_remote_address("a->[2001:db8::1]"), None);
    assert_eq!(parse_remote_address("a->[2001:db8::1]:"), None);
    assert_eq!(parse_remote_address("a->[2001:db8::1]ä80"), None);
    assert_eq!(parse_remote_address("a->[::ffff:127.0.0.1]:80"), None);
    assert_eq!(parse_remote_address("a->localhost:80"), None);
    assert_eq!(parse_remote_address("a->12.7.0.1:80"), Some(("12.7.0.1".into(), 80)));
}

#[test]
fn brackets_that_cannot_be_taken_off_are_found_out() {
    assert!(can_parse_address("a->[::1]:80"));
    assert!(can_parse_address("a->x]:80"));
    assert!(can_parse_address("]"));
    assert!(!can_parse_address("a->]:80"));
    assert!(!can_parse_address("a->ä]:80"));

    let bad = "HEADING\nx 1 u 3u IPv6 1 0t0 TCP a->]:80";
    let ignored = "HEADING\nx 1 u 3u IPv6 1 0t0 RAW a->]:80";
    assert!(!can_parse_output(bad));
    assert!(can_parse_output(ignored));
    let mut observer = NetworkObserver::new(1, 100);
    assert!(observer.try_poll(bad).is_none());
    assert!(observer.try_poll(TWO_CURLS).is_some_and(|events| events.len() == 2));
}

#[test]
fn this_machine_under_its_names() {
    for host in ["127.0.0.1", "127.9.9.9", "::1", "localhost", "::ffff:127.0.0.1", "::ffff:127.1"] {
        assert!(is_loopback(host));
    }
    for host in ["128.0.0.1", "127", "::2", "localhost.example", "", "10.0.0.1"] {
        assert!(!is_loopback(host));
    }
}

#[test]
fn lsof_is_asked_for_the_processes() {
    assert_eq!(
        lsof_arguments(&vec![7, 42]),
        vec!["-i", "-n", "-P", "-a", "-p", "7,42"]
    );
}

#[test]
fn connections_are_dated_when_they_are_reported() {
    let before = Timestamp::now();
    let events = NetworkObserver::new(7, 250).poll(TWO_CURLS);
    let after = Timestamp::now();
    assert_eq!(events.len(), 2);
    for event in &events {
        assert!(before.secs <= event.timestamp.secs && event.timestamp.secs <= after.secs);
        assert!(event.timestamp.nanos < 1_000_000_000);
    }
}

#[test]
fn addresses_read_back() {
    let expected = Some(("10.0.0.9".to_string(), 8080));
    for rest in ["", "(ESTABLISHED)", " (ESTABLISHED)", "()", " more"] {
        let name = format!("host:1->10.0.0.9:8080{rest}");
        assert!(can_parse_address(&name));
        assert_eq!(parse_remote_address(&name), expected);
        let bracketed = format!("[::2]:1->[2001:db8::7]:65535{rest}");
        assert!(can_parse_address(&bracketed));
        assert_eq!(
            parse_remote_address(&bracketed),
            Some(("2001:db8::7".to_string(), 65535))
        );
        assert_eq!(parse_remote_address(&format!("x->[::1]:3{rest}")), None);
    }
}

#[test]
fn output_is_read_line_by_line() {
    let observer = NetworkObserver::new(1, 100);
    let read = |output: &str| -> Vec<(u32, String)> {
        assert!(can_parse_output(output));
        let events = observer.parse_lsof_output(output);
        events.into_iter().map(|event| (event.pid, event.remote_host)).collect()
    };
    let row = |pid: u32, host: &str| format!("c {pid} u 3u IPv4 0x1 0t0 TCP h:1->{host}:443\n");
    let head = "COMMAND PID USER FD TYPE DEVICE SIZE/OFF NODE NAME\n".to_string();
    let one = format!("{head}{}", row(7, "1.1.1.1"));
    let two = format!("{one}nothing here\n{}", row(8, "2.2.2.2"));
    assert!(read(&head).is_empty());
    assert_eq!(read(&one), vec![(7, "1.1.1.1".to_string())]);
    assert_eq!(read(&two), vec![(7, "1.1.1.1".to_string()), (8, "2.2.2.2".to_string())]);
}

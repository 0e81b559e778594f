use linuxpulse::network::network_samples_from_net_dev;
use linuxpulse::processes::{cmdline_arguments, join_arguments, parse_pid, parse_process, ProcessFault};

const NET_DEV: &str = "Inter-|   Receive                                                |  Transmit\n \
face |bytes    packets errs drop fifo frame compressed multicast|bytes    packets errs drop fifo colls carrier compressed\n    \
lo: 1296118   13015    0    0    0     0          0         0  1296118   13015    0    0    0     0       0          0\n\
wlan0: 987654321 700000 0 0 0 0 0 0 123456789 400000 0 0 0 0 0 0\n\
broken line without colon\n\
short: 1 2 3\n\
bad: x 2 3 4 5 6 7 8 y 10\n";

#[test]
fn reads_interfaces() {
    let samples = network_samples_from_net_dev(NET_DEV);
    let got: Vec<(String, u64, u64)> =
        samples.iter().map(|s| (s.name.clone(), s.rx_bytes, s.tx_bytes)).collect();
    assert_eq!(
        got,
        vec![
            ("lo".to_string(), 1296118, 1296118),
            ("wlan0".to_string(), 987654321, 123456789),
            ("bad".to_string(), 0, 0),
        ]
    );
}

#[test]
fn net_dev_headers_only() {
    assert!(network_samples_from_net_dev("a: 1 2 3 4 5 6 7 8 9\nb: 1 2 3 4 5 6 7 8 9\n").is_empty());
    assert!(network_samples_from_net_dev("").is_empty());
}

const STAT: &str = "1234 (my (weird) proc) S 1 1234 1234 0 -1 4194560 100 0 0 0 250 120 0 0 20 0 1 0 12345 1000000 200";

#[test]
fn reads_process() {
    let p = parse_process(
        1234,
        STAT,
        Some(b"/usr/bin/foo\0--bar\0\0baz\0".as_slice()),
        Some("Name:\tfoo\nVmRSS:\t    2048 kB\nVmRSS: 1 kB\n"),
    )
    .unwrap()
    .unwrap();
    assert_eq!(p.pid, 1234);
    assert_eq!(p.name, "my (weird) proc");
    assert_eq!(p.state, 'S');
    assert_eq!(p.cpu_time, 370);
    assert_eq!(p.memory_bytes, 2048 * 1024);
    assert_eq!(p.command, "/usr/bin/foo --bar baz");
}

#[test]
fn process_without_optional_files() {
    let p = parse_process(7, STAT, None, Some("VmRSS: lots\n")).unwrap().unwrap();
    assert_eq!(p.command, "");
    assert_eq!(p.memory_bytes, 0);
    assert!(parse_process(7, STAT, None, None).unwrap().is_none());
}

#[test]
fn process_lossy_command() {
    let p = parse_process(7, STAT, Some(b"a\xffb\0c".as_slice()), Some("")).unwrap().unwrap();
    assert_eq!(p.command, "a\u{fffd}b c");
}

#[test]
fn unreadable_stat_is_skipped() {
    assert_eq!(parse_process(1, "no parens here", None, Some("")).unwrap().is_none(), true);
    assert!(parse_process(1, "1 (x)", None, Some("")).unwrap().is_none());
    assert!(parse_process(1, "1 (x)\u{e9}S 1 2", None, Some("")).unwrap().is_none());
    assert!(parse_process(1, "1 (x) S 1 2 3", None, Some("")).unwrap().is_none());
    assert!(parse_process(1, "1 (x) S 1 2 3 4 5 6 7 8 9 10 x 12", None, Some(""))
        .unwrap()
        .is_none());
}

#[test]
fn process_faults() {
    assert_eq!(
        parse_process(1, ") S (x", None, Some("")).unwrap_err(),
        ProcessFault::MisplacedParens
    );
    assert_eq!(
        parse_process(1, STAT, None, Some("VmRSS: 18446744073709551615 kB\n")).unwrap_err(),
        ProcessFault::MemoryOverflow
    );
    let big = "1 (x) S 1 2 3 4 5 6 7 8 9 10 18446744073709551615 1";
    assert_eq!(
        parse_process(1, big, None, Some("")).unwrap_err(),
        ProcessFault::CpuTimeOverflow
    );
}

#[test]
fn pid_names() {
    assert_eq!(parse_pid("1234"), Some(1234));
    assert_eq!(parse_pid("self"), None);
    assert_eq!(parse_pid("4294967296"), None);
}

#[test]
fn cmdline_arguments_and_join() {
    let parts = cmdline_arguments(b"\0\0ls\0-l\0\0/tmp\0");
    assert_eq!(parts, vec![b"ls".to_vec(), b"-l".to_vec(), b"/tmp".to_vec()]);
    assert!(cmdline_arguments(b"\0\0").is_empty());
    let args = vec!["ls".to_string(), "-l".to_string(), "".to_string(), "x".to_string()];
    assert_eq!(join_arguments(&args), "ls -l  x");
    assert_eq!(join_arguments(&Vec::new()), "");
}

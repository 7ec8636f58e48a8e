use viy::parse::parse_net_dev;

const NET_DEV: &str = "Inter-|   Receive                                                |  Transmit
 face |bytes    packets errs drop fifo frame compressed multicast|bytes    packets errs drop fifo colls carrier compressed
    lo: 1000000    1000    0    0    0     0          0         0  1000000    1000    0    0    0     0       0          0
  eth0: 123456     789    0    0    0     0          0         0    65432     321    0    0    0     0       0          0
 wlan0:     44       2    0    0    0     0          0         0       66       3    0    0    0     0       0          0
";

#[test]
fn net_dev_sums_interfaces_but_loopback() {
    assert_eq!(parse_net_dev(NET_DEV), Some((123_456 + 44, 65_432 + 66)));
}

#[test]
fn net_dev_skips_header_and_malformed_lines() {
    // Two header lines are skipped whatever they hold.
    let text = "eth9: 1 2 3 4 5 6 7 8 9 10\neth9: 1 2 3 4 5 6 7 8 9 10\n";
    assert_eq!(parse_net_dev(text), Some((0, 0)));
    let text = "h\nh\nshort: 1 2 3\neth0: x 0 0 0 0 0 0 0 5 0\neth1: 7 0 0 0 0 0 0 0 +8 0\n";
    assert_eq!(parse_net_dev(text), Some((7, 8)));
    assert_eq!(parse_net_dev(""), Some((0, 0)));
}

#[test]
fn net_dev_handles_crlf_and_missing_final_newline() {
    let text = "h\r\nh\r\neth0: 10 0 0 0 0 0 0 0 20 0\r\neth1: 1 0 0 0 0 0 0 0 2 0";
    assert_eq!(parse_net_dev(text), Some((11, 22)));
}

#[test]
fn net_dev_loopback_prefix_after_spaces() {
    let text = "h\nh\n   lo: 5 0 0 0 0 0 0 0 5 0\nlo0: 3 0 0 0 0 0 0 0 4 0\n";
    // `lo0:` does not start with `lo:`, so it counts.
    assert_eq!(parse_net_dev(text), Some((3, 4)));
}

#[test]
fn net_dev_totals_that_overflow_give_none() {
    let text = "h\nh\neth0: 18446744073709551615 0 0 0 0 0 0 0 1 0\neth1: 1 0 0 0 0 0 0 0 1 0\n";
    assert_eq!(parse_net_dev(text), None);
    let text = "h\nh\neth0: 18446744073709551615 0 0 0 0 0 0 0 1 0\n";
    assert_eq!(parse_net_dev(text), Some((u64::MAX, 1)));
}

#[test]
fn net_dev_name_glued_to_a_long_receive_count() {
    let text = "h1\nh2\n  eth0:123456789 10 0 0 0 0 0 0 987654321 20 0 0 0 0 0 0\n";
    assert_eq!(parse_net_dev(text), Some((123_456_789, 987_654_321)));
}

#[test]
fn net_dev_lines_without_a_colon_add_nothing() {
    let text = "h\nh\neth0 1 0 0 0 0 0 0 0 2 0\neth1:3 0 0 0 0 0 0 0 4\n";
    assert_eq!(parse_net_dev(text), Some((3, 4)));
}

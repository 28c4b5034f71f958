use wgpull::dump::{parse_dump, split_lines_words, DumpError};

#[test]
fn empty_dump_has_no_interface() {
    assert_eq!(parse_dump("").unwrap().is_none(), true);
}

#[test]
fn dump_with_one_peer() {
    let text = "wg0\tAAA\tBBB\t51820\toff\n\
wg0\tPEER\t(none)\t10.0.0.2:51820\t10.2.0.0/24\t1700000000\t100\t-200\t25\n";
    let info = parse_dump(text).unwrap().unwrap();
    assert_eq!(info.interface, "wg0");
    assert_eq!(info.public_key, "AAA");
    assert_eq!(info.private_key, "BBB");
    assert_eq!(info.listening_port, 51820);
    assert_eq!(info.peers.len(), 1);
    let p = &info.peers[0];
    assert_eq!(p.public_key, "PEER");
    assert_eq!(p.endpoint, "10.0.0.2:51820");
    assert_eq!(p.allowed_ips, "10.2.0.0/24");
    assert_eq!(p.latest_handshake, 1700000000);
    assert_eq!(p.transfer_rx, 100);
    assert_eq!(p.transfer_tx, -200);
    assert_eq!(p.persistent_keepalive, 25);
}

#[test]
fn dump_errors() {
    assert_eq!(parse_dump("wg0 a b\n").unwrap_err(), DumpError::MissingField);
    assert_eq!(parse_dump("wg0 a b 70000 off\n").unwrap_err(), DumpError::BadNumber);
    assert_eq!(parse_dump("wg0 a b 1 off\nwg0 p k e ips 1 2 3\n").unwrap_err(), DumpError::MissingField);
    assert_eq!(parse_dump("wg0 a b 1 off\nwg0 p k e ips 1 2 3 off\n").unwrap_err(), DumpError::BadNumber);
    assert_eq!(
        parse_dump("wg0 a b 1 off\nwg0 p k e ips 1 2 -9223372036854775808 9223372036854775807\n")
            .unwrap()
            .unwrap()
            .peers[0]
            .transfer_tx,
        i64::MIN
    );
}

#[test]
fn lines_and_words() {
    let w = split_lines_words("a  b\r\n\nc\td ");
    assert_eq!(w.len(), 3);
    assert_eq!(w[0], vec!["a".to_string(), "b".to_string()]);
    assert!(w[1].is_empty());
    assert_eq!(w[2], vec!["c".to_string(), "d".to_string()]);
    let std_lines: Vec<Vec<String>> = "a  b\r\n\nc\td "
        .lines()
        .map(|l| l.split_whitespace().map(|s| s.to_string()).collect())
        .collect();
    assert_eq!(w, std_lines);
}

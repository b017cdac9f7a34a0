use xdcc::announce::{parse_line, Message, TransferAnnouncement};

fn announcement(line: &[u8]) -> TransferAnnouncement {
    match parse_line(line) {
        Message::Announcement(a) => a,
        _ => panic!("not an announcement"),
    }
}

#[test]
fn quoted_name_is_read() {
    let a = announcement(b":Arutha!u@h PRIVMSG me :\x01DCC SEND \"clip.mkv\" 3232235777 5000 1024\x01\r\n");
    assert_eq!(a.file_name, b"clip.mkv".to_vec());
    assert_eq!(a.host, 3232235777);
    assert_eq!(a.port, 5000);
    assert_eq!(a.size, 1024);
}

#[test]
fn bare_name_is_read() {
    let a = announcement(b"DCC SEND clip.mkv 1 2 3\r\n");
    assert_eq!(a.file_name, b"clip.mkv".to_vec());
    assert_eq!((a.host, a.port, a.size), (1, 2, 3));
}

#[test]
fn stray_closing_quote_is_dropped() {
    let a = announcement(b"DCC SEND clip.mkv\" 1 2 3\r\n");
    assert_eq!(a.file_name, b"clip.mkv".to_vec());
}

#[test]
fn name_with_spaces_and_numbers() {
    let a = announcement(b"x :\x01DCC SEND \"Show 01 02 03.mkv\" 16909060 65535 18446744073709551615\x01\r\n");
    assert_eq!(a.file_name, b"Show 01 02 03.mkv".to_vec());
    assert_eq!(a.host, 16909060);
    assert_eq!(a.port, 65535);
    assert_eq!(a.size, u64::MAX);
    assert_eq!(a.octets(), (1, 2, 3, 4));
}

#[test]
fn marker_is_found_anywhere() {
    let a = announcement(b"prefix DCC SEND f 10 20 30");
    assert_eq!(a.file_name, b"f".to_vec());
    assert_eq!((a.host, a.port, a.size), (10, 20, 30));
}

#[test]
fn out_of_range_fields_are_malformed() {
    assert!(matches!(parse_line(b"DCC SEND f 1 65536 3\r\n"), Message::Malformed));
    assert!(matches!(parse_line(b"DCC SEND f 4294967296 1 3\r\n"), Message::Malformed));
    assert!(matches!(parse_line(b"DCC SEND f 1 1 18446744073709551616\r\n"), Message::Malformed));
}

#[test]
fn quoted_empty_name_is_kept() {
    let a = announcement(b"DCC SEND \"\" 1 2 3\r\n");
    assert!(a.file_name.is_empty());
    assert_eq!((a.host, a.port, a.size), (1, 2, 3));
}

#[test]
fn keep_alive_token_is_read() {
    match parse_line(b"PING :42\r\n") {
        Message::KeepAlive { token } => assert_eq!(token, b"42".to_vec()),
        _ => panic!("not a keep-alive"),
    }
}

#[test]
fn unrelated_lines_are_other() {
    assert!(matches!(parse_line(b":server NOTICE * :hello\r\n"), Message::Other));
    assert!(matches!(parse_line(b"PING :abc\r\n"), Message::Other));
    assert!(matches!(parse_line(b" PING :42\r\n"), Message::Other));
    assert!(matches!(parse_line(b"DCC SEND f 1 2\r\n"), Message::Other));
    assert!(matches!(parse_line(b""), Message::Other));
}

#[test]
fn octets_are_most_significant_first() {
    let a = announcement(b"DCC SEND f 3232235777 1 1");
    assert_eq!(a.octets(), (192, 168, 1, 1));
}

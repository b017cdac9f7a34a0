use xdcc::announce::TransferAnnouncement;
use xdcc::lines::LineReader;
use xdcc::request::{session_for, Args};
use xdcc::session::{pack_request, registration, Phase, Session};
use xdcc::transfer::{first_failure, DownloadError, Transfer, TransferState};

fn session(packs: &[&str]) -> Session {
    Session::new(b"Arutha".to_vec(), packs.iter().map(|p| p.as_bytes().to_vec()).collect())
}

#[test]
fn registration_lines() {
    assert_eq!(registration(b"abcdefghij"), b"NICK abcdefghij\r\nUSER abcdefghij * * :abcdefghij\r\n".to_vec());
}

#[test]
fn request_line_format() {
    assert_eq!(pack_request(b"Arutha", b"123"), b"PRIVMSG Arutha :xdcc send #123\r\n".to_vec());
}

#[test]
fn welcome_ping_joins_and_requests_in_order() {
    let mut s = session(&["1", "22"]);
    let r = s.handle_line(b":irc NOTICE * :hi\r\n");
    assert!(r.send.is_empty() && r.task.is_none() && !r.close);
    assert_eq!(s.phase(), Phase::AwaitingWelcome);
    let r = s.handle_line(b"PING :42\r\n");
    assert_eq!(
        r.send,
        b"PONG :42\r\nJOIN #nibl\r\nPRIVMSG Arutha :xdcc send #1\r\nPRIVMSG Arutha :xdcc send #22\r\n".to_vec()
    );
    assert!(r.task.is_none() && !r.close);
    assert_eq!(s.phase(), Phase::AwaitingTransfers);
}

#[test]
fn keep_alive_swaps_only_the_directive() {
    let mut s = session(&["1"]);
    s.handle_line(b"PING :1\r\n");
    let r = s.handle_line(b"PING :98765\r\n");
    assert_eq!(r.send, b"PONG :98765\r\n".to_vec());
    assert!(r.task.is_none());
}

#[test]
fn unrelated_lines_send_nothing() {
    let mut s = session(&["1"]);
    s.handle_line(b"PING :1\r\n");
    for line in [&b":a PRIVMSG #nibl :hello\r\n"[..], b":a JOIN :#nibl\r\n", b"DCC SEND x 1 2\r\n"] {
        let r = s.handle_line(line);
        assert!(r.send.is_empty() && r.task.is_none() && !r.close);
    }
    assert_eq!(s.announced(), 0);
}

#[test]
fn empty_request_quits_after_welcome() {
    let mut s = session(&[]);
    let r = s.handle_line(b"PING :5\r\n");
    assert_eq!(r.send, b"PONG :5\r\nJOIN #nibl\r\nQUIT :adios\r\n".to_vec());
    assert!(r.close);
    assert_eq!(s.phase(), Phase::Closed);
}

#[test]
fn tasks_match_announcements_through_noise() {
    let mut s = session(&["1", "2", "3"]);
    s.handle_line(b"PING :1\r\n");
    let lines: [&[u8]; 8] = [
        b"chat\r\n",
        b"DCC SEND a 1 2 3\r\n",
        b"PING :9\r\n",
        b"DCC SEND b 1 2 zz\r\n",
        b"DCC SEND b 1 99999 3\r\n",
        b"more chat\r\n",
        b"DCC SEND c 1 2 3\r\n",
        b"DCC SEND d 1 2 3\r\n",
    ];
    let mut started = 0;
    let mut closes = 0;
    for line in lines {
        let r = s.handle_line(line);
        if r.task.is_some() {
            started += 1;
        }
        if r.close {
            closes += 1;
            assert_eq!(r.send, b"QUIT :adios\r\n".to_vec());
        }
    }
    assert_eq!(started, 3);
    assert_eq!(closes, 1);
    assert_eq!(s.announced(), 3);
    assert_eq!(s.phase(), Phase::Closed);
}

#[test]
fn malformed_announcement_is_a_failed_task() {
    let mut s = session(&["1"]);
    s.handle_line(b"PING :1\r\n");
    let r = s.handle_line(b"DCC SEND f 1 70000 3\r\n");
    assert!(matches!(r.task, Some(Err(DownloadError::ProtocolParse))));
    assert!(r.close);
}

/// Drives one transfer over an in-memory payload source that yields at most
/// `available` bytes.
fn simulate_transfer(a: &TransferAnnouncement, available: usize) -> (Transfer, Vec<u8>) {
    let payload: Vec<u8> = (0..available).map(|i| (i % 251) as u8).collect();
    let mut file = Vec::new();
    let mut t = Transfer::new(a.size);
    t.start();
    let mut pos = 0;
    while t.state() == TransferState::Streaming {
        let want = t.next_read_len();
        let n = want.min(payload.len() - pos).min(300);
        file.extend_from_slice(&payload[pos..pos + n]);
        pos += n;
        t.on_read(n);
    }
    (t, file)
}

fn run_scenario(available: usize) -> (Vec<u8>, Result<(), DownloadError>, Vec<u8>, Vec<u8>) {
    let args = Args::Direct { bot: "Arutha".to_string(), packs: vec!["123".to_string()] };
    let mut s = session_for(&args).unwrap();
    let server: &[u8] = b":irc NOTICE * :welcome\r\nPING :42\r\n:Arutha!a@b PRIVMSG me :\x01DCC SEND \"clip.mkv\" 2130706433 40000 1024\x01\r\n";
    let mut reader = LineReader::new();
    let mut sent = Vec::new();
    let mut results = Vec::new();
    let mut name = Vec::new();
    let mut written = Vec::new();
    for chunk in server.chunks(4) {
        for line in reader.feed(chunk) {
            let r = s.handle_line(&line);
            sent.extend_from_slice(&r.send);
            if let Some(task) = r.task {
                let a = task.unwrap();
                assert_eq!(a.octets(), (127, 0, 0, 1));
                assert_eq!(a.port, 40000);
                let (t, file) = simulate_transfer(&a, available);
                name = a.file_name.clone();
                written = file;
                results.push(t.outcome().unwrap());
            }
        }
    }
    assert_eq!(s.phase(), Phase::Closed);
    assert_eq!(name, b"clip.mkv".to_vec());
    (sent, first_failure(&results), name, written)
}

#[test]
fn end_to_end_full_payload() {
    let (sent, result, _, written) = run_scenario(1024);
    assert_eq!(written.len(), 1024);
    assert_eq!(result, Ok(()));
    assert_eq!(
        sent,
        b"PONG :42\r\nJOIN #nibl\r\nPRIVMSG Arutha :xdcc send #123\r\nQUIT :adios\r\n".to_vec()
    );
}

#[test]
fn end_to_end_short_payload() {
    let (sent, result, _, written) = run_scenario(500);
    assert_eq!(written.len(), 500);
    assert_eq!(result, Err(DownloadError::ShortTransfer));
    assert!(sent.ends_with(b"QUIT :adios\r\n"));
}

use xdcc::lines::LineReader;

fn feed_all(chunks: &[&[u8]]) -> (Vec<Vec<u8>>, Vec<u8>) {
    let mut reader = LineReader::new();
    let mut lines = Vec::new();
    for c in chunks {
        lines.extend(reader.feed(c));
    }
    (lines, reader.pending().clone())
}

#[test]
fn whole_stream_splits_on_newline() {
    let (lines, rest) = feed_all(&[b"PING :42\r\nJOIN :#nibl\r\npart"]);
    assert_eq!(lines, vec![b"PING :42\r\n".to_vec(), b"JOIN :#nibl\r\n".to_vec()]);
    assert_eq!(rest, b"part".to_vec());
}

#[test]
fn single_byte_chunks_give_same_lines() {
    let stream: &[u8] = b"NOTICE x\r\nPING :7\r\n\r\nDCC SEND a 1 2 3\r\ntail";
    let whole = feed_all(&[stream]);
    let bytes: Vec<&[u8]> = stream.chunks(1).collect();
    assert_eq!(feed_all(&bytes), whole);
    let fours: Vec<&[u8]> = stream.chunks(4).collect();
    assert_eq!(feed_all(&fours), whole);
    assert_eq!(whole.0.len(), 4);
    assert_eq!(whole.0[2], b"\r\n".to_vec());
}

#[test]
fn bytes_past_terminator_are_kept() {
    let mut reader = LineReader::new();
    assert!(reader.feed(b"PIN").is_empty());
    assert_eq!(reader.pending(), &b"PIN".to_vec());
    let lines = reader.feed(b"G :1\nNEXT");
    assert_eq!(lines, vec![b"PING :1\n".to_vec()]);
    assert_eq!(reader.pending(), &b"NEXT".to_vec());
    let lines = reader.feed(b"\n");
    assert_eq!(lines, vec![b"NEXT\n".to_vec()]);
    assert!(reader.pending().is_empty());
}

#[test]
fn empty_chunk_changes_nothing() {
    let mut reader = LineReader::new();
    reader.feed(b"ab");
    assert!(reader.feed(b"").is_empty());
    assert_eq!(reader.pending(), &b"ab".to_vec());
}

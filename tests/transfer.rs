use xdcc::transfer::{first_failure, DownloadError, Transfer, TransferState, CHUNK};

#[test]
fn reads_are_capped_by_chunk_and_remainder() {
    let mut t = Transfer::new(100_000);
    t.start();
    assert_eq!(t.next_read_len(), CHUNK);
    t.on_read(CHUNK);
    assert_eq!(t.received(), 65536);
    assert_eq!(t.next_read_len(), 100_000 - 65536);
    t.on_read(100_000 - 65536);
    assert_eq!(t.state(), TransferState::Complete);
    assert_eq!(t.outcome(), Some(Ok(())));
}

#[test]
fn source_closing_early_is_short() {
    let mut t = Transfer::new(1024);
    t.start();
    t.on_read(500);
    assert_eq!(t.state(), TransferState::Streaming);
    assert_eq!(t.outcome(), None);
    t.on_read(0);
    assert_eq!(t.state(), TransferState::Failed(DownloadError::ShortTransfer));
    assert_eq!(t.outcome(), Some(Err(DownloadError::ShortTransfer)));
    assert_eq!(t.received(), 500);
}

#[test]
fn empty_announcement_completes_at_once() {
    let mut t = Transfer::new(0);
    assert_eq!(t.state(), TransferState::Pending);
    t.start();
    assert_eq!(t.state(), TransferState::Complete);
}

#[test]
fn failure_is_recorded() {
    let mut t = Transfer::new(10);
    t.fail(DownloadError::Connection);
    assert_eq!(t.outcome(), Some(Err(DownloadError::Connection)));
    assert_eq!(t.size(), 10);
}

#[test]
fn first_failure_wins() {
    assert_eq!(first_failure(&vec![]), Ok(()));
    assert_eq!(first_failure(&vec![Ok(()), Ok(())]), Ok(()));
    assert_eq!(
        first_failure(&vec![Ok(()), Err(DownloadError::FileIo), Err(DownloadError::ShortTransfer)]),
        Err(DownloadError::FileIo)
    );
}

//! Per-transfer bookkeeping: how much to read next, when a transfer is
//! complete, when it fell short, and how the outcomes of all transfers
//! combine into the session's result.
use vstd::prelude::*;

verus! {

/// Why a download failed.
#[derive(PartialEq, Eq, Structural, Clone, Copy, Debug)]
pub enum DownloadError {
    /// A control or payload connection could not be opened or broke.
    Connection,
    /// An announcement of the right shape whose fields could not be read.
    ProtocolParse,
    /// The payload stream closed before the announced size arrived.
    ShortTransfer,
    /// The destination file could not be created or written.
    FileIo,
}

/// The most a transfer asks of its connection in one read.
pub const CHUNK: usize = 65536;

/// Where a transfer stands.
#[derive(PartialEq, Eq, Structural, Clone, Copy, Debug)]
pub enum TransferState {
    /// Announced; its connection and file are not yet open.
    Pending,
    /// Connected, and reading the payload.
    Streaming,
    /// Every announced byte has arrived.
    Complete,
    /// Given up, for the reason held.
    Failed(DownloadError),
}

pub struct TransferView {
    pub size: nat,
    pub received: nat,
    pub state: TransferState,
}

/// The progress of one transfer of an announced size.
pub struct Transfer {
    size: u64,
    received: u64,
    state: TransferState,
}

/// The state after a read that returned `n` bytes: none means the source
/// closed.
pub open spec fn after_read(t: TransferView, n: nat) -> TransferView {
    if n == 0 {
        TransferView { state: TransferState::Failed(DownloadError::ShortTransfer), ..t }
    } else {
        TransferView {
            received: t.received + n,
            state: if t.received + n >= t.size {
                TransferState::Complete
            } else {
                TransferState::Streaming
            },
            ..t
        }
    }
}

/// The state after each read of `reads` in turn.
pub open spec fn after_reads(t: TransferView, reads: Seq<nat>) -> TransferView
    decreases reads.len(),
{
    if reads.len() == 0 {
        t
    } else {
        after_read(after_reads(t, reads.drop_last()), reads.last())
    }
}

pub open spec fn total(reads: Seq<nat>) -> nat
    decreases reads.len(),
{
    if reads.len() == 0 {
        0
    } else {
        total(reads.drop_last()) + reads.last()
    }
}

pub open spec fn transfer_wf(t: TransferView) -> bool {
    &&& t.received <= t.size
    &&& t.state == TransferState::Pending ==> t.received == 0
    &&& t.state == TransferState::Streaming ==> t.received < t.size
    &&& t.state == TransferState::Complete ==> t.received == t.size
}

impl View for Transfer {
    type V = TransferView;

    closed spec fn view(&self) -> TransferView {
        TransferView { size: self.size as nat, received: self.received as nat, state: self.state }
    }
}

impl Transfer {
    #[verifier::type_invariant]
    spec fn inv(self) -> bool {
        transfer_wf(self@)
    }

    /// A transfer that expects `size` bytes.
    pub fn new(size: u64) -> (r: Transfer)
        ensures
            r@ == (TransferView { size: size as nat, received: 0, state: TransferState::Pending }),
            transfer_wf(r@),
    {
        Transfer { size, received: 0, state: TransferState::Pending }
    }

    pub fn state(&self) -> (r: TransferState)
        ensures
            r == self@.state,
    {
        self.state
    }

    /// How many bytes have arrived.
    pub fn received(&self) -> (r: u64)
        ensures
            r as nat == self@.received,
    {
        self.received
    }

    pub fn size(&self) -> (r: u64)
        ensures
            r as nat == self@.size,
    {
        self.size
    }

    /// The connection and the file are open: start reading, or finish at
    /// once when nothing was announced.
    pub fn start(&mut self)
        requires
            old(self)@.state == TransferState::Pending,
        ensures
            transfer_wf(final(self)@),
            final(self)@ == (TransferView {
                state: if old(self)@.size == 0 {
                    TransferState::Complete
                } else {
                    TransferState::Streaming
                },
                ..old(self)@
            }),
    {
        proof {
            use_type_invariant(&*self);
        }
        if self.size == 0 {
            self.state = TransferState::Complete;
        } else {
            self.state = TransferState::Streaming;
        }
    }

    /// How many bytes to ask for next: a chunk, or what is left if less.
    pub fn next_read_len(&self) -> (r: usize)
        requires
            self@.state == TransferState::Streaming,
        ensures
            r as int == min(CHUNK as int, self@.size - self@.received),
            r > 0,
    {
        proof {
            use_type_invariant(&*self);
        }
        let left: u64 = self.size - self.received;
        if left < CHUNK as u64 {
            left as usize
        } else {
            CHUNK
        }
    }

    /// Records a read that returned `n` bytes; a read of none means the
    /// source closed, which before the announced size is a short transfer.
    pub fn on_read(&mut self, n: usize)
        requires
            old(self)@.state == TransferState::Streaming,
            n <= min(CHUNK as int, old(self)@.size - old(self)@.received),
        ensures
            transfer_wf(final(self)@),
            final(self)@ == after_read(old(self)@, n as nat),
    {
        proof {
            use_type_invariant(&*self);
        }
        if n == 0 {
            self.state = TransferState::Failed(DownloadError::ShortTransfer);
        } else {
            let received = self.received + n as u64;
            let state = if received >= self.size {
                TransferState::Complete
            } else {
                TransferState::Streaming
            };
            *self = Transfer { size: self.size, received, state };
        }
    }

    /// Gives the transfer up for a failure of its connection or its file.
    pub fn fail(&mut self, e: DownloadError)
        ensures
            final(self)@ == (TransferView { state: TransferState::Failed(e), ..old(self)@ }),
    {
        proof {
            use_type_invariant(&*self);
        }
        self.state = TransferState::Failed(e);
    }

    /// What the transfer came to: success once complete, else its failure.
    pub fn outcome(&self) -> (r: Option<Result<(), DownloadError>>)
        ensures
            r == match self@.state {
                TransferState::Complete => Some(Ok(())),
                TransferState::Failed(e) => Some(Err(e)),
                _ => None::<Result<(), DownloadError>>,
            },
    {
        match self.state {
            TransferState::Complete => Some(Ok(())),
            TransferState::Failed(e) => Some(Err(e)),
            _ => None,
        }
    }
}

pub open spec fn min(a: int, b: int) -> int {
    if a < b {
        a
    } else {
        b
    }
}

proof fn lemma_positive_reads(t: TransferView, reads: Seq<nat>)
    requires
        t.state == TransferState::Streaming,
        t.received + total(reads) < t.size,
        forall|i: int| 0 <= i < reads.len() ==> reads[i] > 0,
    ensures
        after_reads(t, reads) == (TransferView {
            received: t.received + total(reads),
            ..t
        }),
    decreases reads.len(),
{
    if reads.len() > 0 {
        lemma_positive_reads(t, reads.drop_last());
    }
}

/// Short transfer: when the source closes after `K` bytes, fewer than
/// announced, the transfer ends failed as short, never complete.
pub proof fn short_source_fails(t: TransferView, reads: Seq<nat>)
    requires
        t.state == TransferState::Streaming,
        t.received == 0,
        total(reads) < t.size,
        forall|i: int| 0 <= i < reads.len() ==> reads[i] > 0,
    ensures
        after_reads(t, reads.push(0)).state == TransferState::Failed(DownloadError::ShortTransfer),
        after_reads(t, reads.push(0)).received == total(reads),
{
    lemma_positive_reads(t, reads);
    assert(reads.push(0).drop_last() =~= reads);
}

/// The session's result from its transfers' outcomes, in the order they
/// were started: the first failure, or success when none failed.
pub open spec fn combined(rs: Seq<Result<(), DownloadError>>) -> Result<(), DownloadError>
    decreases rs.len(),
{
    if rs.len() == 0 {
        Ok(())
    } else if rs[0] is Err {
        rs[0]
    } else {
        combined(rs.drop_first())
    }
}

/// Combines the outcomes of every transfer into the session's result.
pub fn first_failure(results: &Vec<Result<(), DownloadError>>) -> (r: Result<(), DownloadError>)
    ensures
        r == combined(results@),
        r is Ok <==> forall|i: int| 0 <= i < results@.len() ==> results@[i] is Ok,
{
    let mut i: usize = 0;
    proof {
        assert(results@.skip(0) =~= results@);
    }
    while i < results.len()
        invariant
            i <= results@.len(),
            combined(results@) == combined(results@.skip(i as int)),
            forall|j: int| 0 <= j < i ==> results@[j] is Ok,
        decreases results@.len() - i,
    {
        proof {
            assert(results@.skip(i as int).drop_first() =~= results@.skip(i + 1));
        }
        match results[i] {
            Err(e) => {
                return Err(e);
            },
            Ok(()) => {},
        }
        i = i + 1;
    }
    Ok(())
}

} // verus!
